//! Parse `word/document.xml` into ordered IR blocks.
//!
//! The body is a flat stream of `w:p` (paragraphs) and `w:tbl` (tables). The
//! events are pulled from a cursor: on each top-level `w:p`/`w:tbl` that
//! element's whole subtree is consumed, so paragraphs nested inside table
//! cells are handled by the table reader and never leak out as top-level
//! blocks. Document order is preserved by construction.

use vstd::prelude::*;

use crate::docx::styles::{
    ascii, heading_level, heading_level_spec, lower_chars, lower_spec, opt_string_view,
    parse_unsigned, parse_unsigned_chars, xml_message, StyleMap,
};
use crate::docx::table::{
    build_table, cells_unplaced, gridded, raw_row_view, raw_rows_view, resolved_rows, RawCell,
    RawCellView, VMerge,
};
use crate::docx::xml::{
    attr_by_local, attr_by_local_spec, bytes_equal, event_at, XmlCursor, XmlEvent, XmlEventView,
    XmlTag, XmlTagView,
};
use crate::error::{malformed_with, PdfmuseError};
use crate::ir::{BBox, Block, Paragraph, Table, TableSource};
use crate::text::{chars_equal, chars_of, push_char};
use vstd::string::StringExecFns;

verus! {

pub open spec fn tag_p() -> Seq<u8> {
    ascii(seq!['p'])
}

pub open spec fn tag_t() -> Seq<u8> {
    ascii(seq!['t'])
}

pub open spec fn tag_tbl() -> Seq<u8> {
    ascii(seq!['t', 'b', 'l'])
}

pub open spec fn tag_tr() -> Seq<u8> {
    ascii(seq!['t', 'r'])
}

pub open spec fn tag_tc() -> Seq<u8> {
    ascii(seq!['t', 'c'])
}

pub open spec fn tag_p_style() -> Seq<u8> {
    ascii(seq!['p', 'S', 't', 'y', 'l', 'e'])
}

pub open spec fn tag_grid_span() -> Seq<u8> {
    ascii(seq!['g', 'r', 'i', 'd', 'S', 'p', 'a', 'n'])
}

pub open spec fn tag_v_merge() -> Seq<u8> {
    ascii(seq!['v', 'M', 'e', 'r', 'g', 'e'])
}

pub open spec fn attr_val_name() -> Seq<u8> {
    ascii(seq!['v', 'a', 'l'])
}

/// The message of a text run that cannot be unescaped.
pub open spec fn text_message(e: Seq<char>) -> Seq<char> {
    "invalid DOCX text: "@ + e
}

// ---------------------------------------------------------------------------
// Paragraphs
// ---------------------------------------------------------------------------

/// A paragraph's text and style id as the events from the `k`-th on give
/// them: text is every `w:t` run's content; `w:pStyle @w:val` (start or empty
/// tag) sets the style; `</w:p>` or the end of input finishes. Yields the
/// index after the last event read.
pub open spec fn paragraph_from(
    xml: Seq<u8>,
    k: int,
    text: Seq<char>,
    style: Option<Seq<char>>,
    in_text: bool,
) -> Result<(int, Seq<char>, Option<Seq<char>>), Seq<char>>
    decreases xml.len() + 1 - k,
{
    if k < 0 || k > xml.len() {
        Ok((k, text, style))
    } else {
        match event_at(xml, k) {
            Err(e) => Err(xml_message(e)),
            Ok(XmlEventView::Start(t)) => if t.name == tag_t() {
                paragraph_from(xml, k + 1, text, style, true)
            } else if t.name == tag_p_style() {
                paragraph_from(xml, k + 1, text, attr_by_local_spec(t.attrs, attr_val_name()), in_text)
            } else {
                paragraph_from(xml, k + 1, text, style, in_text)
            },
            Ok(XmlEventView::Empty(t)) => if t.name == tag_p_style() {
                paragraph_from(xml, k + 1, text, attr_by_local_spec(t.attrs, attr_val_name()), in_text)
            } else {
                paragraph_from(xml, k + 1, text, style, in_text)
            },
            Ok(XmlEventView::Text(r)) => if in_text {
                match r {
                    Ok(s) => paragraph_from(xml, k + 1, text + s, style, in_text),
                    Err(e) => Err(text_message(e)),
                }
            } else {
                paragraph_from(xml, k + 1, text, style, in_text)
            },
            Ok(XmlEventView::End(n)) => if n == tag_t() {
                paragraph_from(xml, k + 1, text, style, false)
            } else if n == tag_p() {
                Ok((k + 1, text, style))
            } else {
                paragraph_from(xml, k + 1, text, style, in_text)
            },
            Ok(XmlEventView::Eof) => Ok((k + 1, text, style)),
            Ok(XmlEventView::Other) => paragraph_from(xml, k + 1, text, style, in_text),
        }
    }
}

pub proof fn lemma_paragraph_bounds(
    xml: Seq<u8>,
    k: int,
    text: Seq<char>,
    style: Option<Seq<char>>,
    in_text: bool,
)
    requires
        0 <= k <= xml.len() + 1,
    ensures
        paragraph_from(xml, k, text, style, in_text) matches Ok((k2, _, _)) ==> k <= k2 <= xml.len() + 1,
    decreases xml.len() + 1 - k,
{
    if k <= xml.len() {
        match event_at(xml, k) {
            Err(_) => {},
            Ok(XmlEventView::Start(t)) => {
                if t.name == tag_t() {
                    lemma_paragraph_bounds(xml, k + 1, text, style, true);
                } else if t.name == tag_p_style() {
                    lemma_paragraph_bounds(xml, k + 1, text, attr_by_local_spec(t.attrs, attr_val_name()), in_text);
                } else {
                    lemma_paragraph_bounds(xml, k + 1, text, style, in_text);
                }
            },
            Ok(XmlEventView::Empty(t)) => {
                if t.name == tag_p_style() {
                    lemma_paragraph_bounds(xml, k + 1, text, attr_by_local_spec(t.attrs, attr_val_name()), in_text);
                } else {
                    lemma_paragraph_bounds(xml, k + 1, text, style, in_text);
                }
            },
            Ok(XmlEventView::Text(r)) => {
                if in_text {
                    if let Ok(s) = r {
                        lemma_paragraph_bounds(xml, k + 1, text + s, style, in_text);
                    }
                } else {
                    lemma_paragraph_bounds(xml, k + 1, text, style, in_text);
                }
            },
            Ok(XmlEventView::End(n)) => {
                if n == tag_t() {
                    lemma_paragraph_bounds(xml, k + 1, text, style, false);
                } else if n != tag_p() {
                    lemma_paragraph_bounds(xml, k + 1, text, style, in_text);
                }
            },
            Ok(XmlEventView::Eof) => {},
            Ok(XmlEventView::Other) => {
                lemma_paragraph_bounds(xml, k + 1, text, style, in_text);
            },
        }
    }
}

/// A paragraph's text only grows, in document order: read from any point
/// with text `text` already gathered, it is `text` followed by what the same
/// events give from an empty start (so each `w:t` run is appended after the
/// runs before it, none replaced); the end position, the style and any error
/// do not depend on `text`.
pub proof fn lemma_paragraph_text_appends_runs(
    xml: Seq<u8>,
    k: int,
    text: Seq<char>,
    style: Option<Seq<char>>,
    in_text: bool,
)
    ensures
        match paragraph_from(xml, k, Seq::empty(), style, in_text) {
            Ok((k2, t2, st)) => paragraph_from(xml, k, text, style, in_text) == Ok::<
                (int, Seq<char>, Option<Seq<char>>),
                Seq<char>,
            >((k2, text + t2, st)),
            Err(m) => paragraph_from(xml, k, text, style, in_text) == Err::<
                (int, Seq<char>, Option<Seq<char>>),
                Seq<char>,
            >(m),
        },
    decreases xml.len() + 1 - k,
{
    let e = Seq::<char>::empty();
    if k < 0 || k > xml.len() {
        assert(text + e =~= text);
    } else {
        match event_at(xml, k) {
            Err(_) => {},
            Ok(XmlEventView::Start(t)) => {
                if t.name == tag_t() {
                    lemma_paragraph_text_appends_runs(xml, k + 1, text, style, true);
                } else if t.name == tag_p_style() {
                    lemma_paragraph_text_appends_runs(
                        xml,
                        k + 1,
                        text,
                        attr_by_local_spec(t.attrs, attr_val_name()),
                        in_text,
                    );
                } else {
                    lemma_paragraph_text_appends_runs(xml, k + 1, text, style, in_text);
                }
            },
            Ok(XmlEventView::Empty(t)) => {
                if t.name == tag_p_style() {
                    lemma_paragraph_text_appends_runs(
                        xml,
                        k + 1,
                        text,
                        attr_by_local_spec(t.attrs, attr_val_name()),
                        in_text,
                    );
                } else {
                    lemma_paragraph_text_appends_runs(xml, k + 1, text, style, in_text);
                }
            },
            Ok(XmlEventView::Text(r)) => {
                if in_text {
                    if let Ok(s) = r {
                        lemma_paragraph_text_appends_runs(xml, k + 1, text + s, style, in_text);
                        lemma_paragraph_text_appends_runs(xml, k + 1, s, style, in_text);
                        lemma_paragraph_text_appends_runs(xml, k + 1, e + s, style, in_text);
                        assert(e + s =~= s);
                        match paragraph_from(xml, k + 1, e, style, in_text) {
                            Ok((k2, t2, st)) => {
                                assert((text + s) + t2 =~= text + (s + t2));
                            },
                            Err(_) => {},
                        }
                    }
                } else {
                    lemma_paragraph_text_appends_runs(xml, k + 1, text, style, in_text);
                }
            },
            Ok(XmlEventView::End(n)) => {
                if n == tag_t() {
                    lemma_paragraph_text_appends_runs(xml, k + 1, text, style, false);
                } else if n == tag_p() {
                    assert(text + e =~= text);
                } else {
                    lemma_paragraph_text_appends_runs(xml, k + 1, text, style, in_text);
                }
            },
            Ok(XmlEventView::Eof) => {
                assert(text + e =~= text);
            },
            Ok(XmlEventView::Other) => {
                lemma_paragraph_text_appends_runs(xml, k + 1, text, style, in_text);
            },
        }
    }
}

/// The content of a `w:t` element, `<w:t>s</w:t>`, is appended to the
/// paragraph's text.
pub proof fn lemma_text_run_appends_content(
    xml: Seq<u8>,
    k: int,
    s: Seq<char>,
    text: Seq<char>,
    style: Option<Seq<char>>,
    in_text: bool,
)
    requires
        0 <= k,
        k + 2 <= xml.len(),
        event_at(xml, k) matches Ok(XmlEventView::Start(t)) && t.name == tag_t(),
        event_at(xml, k + 1) == Ok::<XmlEventView, Seq<char>>(
            XmlEventView::Text(Ok::<Seq<char>, Seq<char>>(s)),
        ),
        event_at(xml, k + 2) == Ok::<XmlEventView, Seq<char>>(XmlEventView::End(tag_t())),
    ensures
        paragraph_from(xml, k, text, style, in_text) == paragraph_from(
            xml,
            k + 3,
            text + s,
            style,
            false,
        ),
{
    assert(paragraph_from(xml, k + 2, text + s, style, true) == paragraph_from(
        xml,
        k + 3,
        text + s,
        style,
        false,
    ));
    assert(paragraph_from(xml, k + 1, text, style, true) == paragraph_from(
        xml,
        k + 2,
        text + s,
        style,
        true,
    ));
}

/// Text that stands outside any `w:t` element (between runs, in `w:instrText`
/// and the like) is not part of the paragraph's text; `</w:p>` ends the
/// paragraph with the text and style gathered so far.
pub proof fn lemma_paragraph_text_only_from_runs(
    xml: Seq<u8>,
    k: int,
    text: Seq<char>,
    style: Option<Seq<char>>,
)
    requires
        0 <= k <= xml.len(),
    ensures
        event_at(xml, k) matches Ok(XmlEventView::Text(_)) ==> paragraph_from(
            xml,
            k,
            text,
            style,
            false,
        ) == paragraph_from(xml, k + 1, text, style, false),
        event_at(xml, k) == Ok::<XmlEventView, Seq<char>>(XmlEventView::End(tag_p()))
            ==> paragraph_from(xml, k, text, style, false) == Ok::<
            (int, Seq<char>, Option<Seq<char>>),
            Seq<char>,
        >((k + 1, text, style)),
{
    assert(tag_p() != tag_t()) by {
        assert(tag_p().len() == 1 && tag_t().len() == 1);
        assert(tag_p()[0] != tag_t()[0]);
    }
}

/// Reads a `w:val` attribute of a tag whose local name is `name`.
fn tag_is(t: &XmlTag, name: &[u8]) -> (r: bool)
    ensures
        r == (t@.name == name@),
{
    bytes_equal(t.name.as_slice(), name)
}

/// Consume a `w:p` subtree (start already read) into its text and style id.
#[verifier::loop_isolation(false)]
fn read_paragraph(cur: &mut XmlCursor) -> (r: Result<(String, Option<String>), PdfmuseError>)
    requires
        0 <= old(cur).pos() <= old(cur).input().len() + 1,
    ensures
        final(cur).input() == old(cur).input(),
        match paragraph_from(old(cur).input(), old(cur).pos(), Seq::empty(), None, false) {
            Ok((k2, text, style)) => r is Ok && final(cur).pos() == k2 && r->Ok_0.0@ == text
                && opt_string_view(r->Ok_0.1) == style,
            Err(m) => r is Err && (r->Err_0 matches PdfmuseError::Malformed(mm) && mm@ == m),
        },
{
    let ghost xml = cur.input();
    let ghost target = paragraph_from(xml, cur.pos(), Seq::empty(), None, false);
    let t_name: [u8; 1] = ['t' as u8];
    let p_name: [u8; 1] = ['p' as u8];
    let p_style: [u8; 6] = ['p' as u8, 'S' as u8, 't' as u8, 'y' as u8, 'l' as u8, 'e' as u8];
    let val: [u8; 3] = ['v' as u8, 'a' as u8, 'l' as u8];
    assert(t_name@ =~= tag_t());
    assert(p_name@ =~= tag_p());
    assert(p_style@ =~= tag_p_style());
    assert(val@ =~= attr_val_name());
    let mut text = String::new();
    let mut style_id: Option<String> = None;
    let mut in_text = false;
    loop
        invariant
            t_name@ == tag_t(),
            p_name@ == tag_p(),
            p_style@ == tag_p_style(),
            val@ == attr_val_name(),
            cur.input() == xml,
            0 <= cur.pos() <= xml.len() + 1,
            paragraph_from(xml, cur.pos(), text@, opt_string_view(style_id), in_text) == target,
        decreases xml.len() + 1 - cur.pos(),
    {
        let ev = cur.next();
        match ev {
            Err(e) => {
                return Err(malformed_with("invalid DOCX XML: ", e.as_str()));
            },
            Ok(XmlEvent::Start(t)) => {
                if tag_is(&t, &t_name) {
                    in_text = true;
                } else if tag_is(&t, &p_style) {
                    style_id = attr_by_local(&t, &val);
                }
            },
            Ok(XmlEvent::Empty(t)) => {
                if tag_is(&t, &p_style) {
                    style_id = attr_by_local(&t, &val);
                }
            },
            Ok(XmlEvent::Text(r)) => {
                if in_text {
                    match r {
                        Ok(s) => {
                            text.append(s.as_str());
                        },
                        Err(e) => {
                            return Err(malformed_with("invalid DOCX text: ", e.as_str()));
                        },
                    }
                }
            },
            Ok(XmlEvent::End(n)) => {
                if bytes_equal(n.as_slice(), &t_name) {
                    in_text = false;
                } else if bytes_equal(n.as_slice(), &p_name) {
                    return Ok((text, style_id));
                }
            },
            Ok(XmlEvent::Eof) => {
                return Ok((text, style_id));
            },
            Ok(XmlEvent::Other) => {},
        }
    }
}

// ---------------------------------------------------------------------------
// Table cells, rows and tables
// ---------------------------------------------------------------------------

pub open spec fn restart_word() -> Seq<char> {
    seq!['r', 'e', 's', 't', 'a', 'r', 't']
}

/// `w:gridSpan @w:val` as a column span: a `u16` of at least 1, else 1.
pub open spec fn span_spec(t: XmlTagView) -> u16 {
    match attr_by_local_spec(t.attrs, attr_val_name()) {
        Some(v) => match parse_unsigned(v, 65535) {
            Some(n) => if n >= 1 {
                n as u16
            } else {
                1
            },
            None => 1,
        },
        None => 1,
    }
}

/// `w:vMerge @w:val`: `restart` (any case) starts a span; anything else,
/// including a bare `<w:vMerge/>`, continues the span above.
pub open spec fn vmerge_spec(t: XmlTagView) -> VMerge {
    match attr_by_local_spec(t.attrs, attr_val_name()) {
        Some(v) => if lower_spec(v) == restart_word() {
            VMerge::Restart
        } else {
            VMerge::Continue
        },
        None => VMerge::Continue,
    }
}

pub open spec fn cell_view(text: Seq<char>, span: u16, vm: VMerge) -> RawCellView {
    RawCellView { text, col_span: span, vmerge: vm, grid_col: 0 }
}

/// A cell as the events from the `k`-th on give it, at nesting depth `depth`
/// of `w:tc` elements: runs' text is collected (a nested table's text too);
/// each `w:p` of this cell after the first starts a new line; `w:gridSpan`
/// and `w:vMerge` of this cell set its span and merge state; the `</w:tc>`
/// that closes this cell, or the end of input, finishes.
pub open spec fn cell_from(
    xml: Seq<u8>,
    k: int,
    text: Seq<char>,
    span: u16,
    vm: VMerge,
    in_text: bool,
    depth: int,
    seen_p: bool,
) -> Result<(int, RawCellView), Seq<char>>
    decreases xml.len() + 1 - k,
{
    if k < 0 || k > xml.len() {
        Ok((k, cell_view(text, span, vm)))
    } else {
        match event_at(xml, k) {
            Err(e) => Err(xml_message(e)),
            Ok(XmlEventView::Start(t)) => if t.name == tag_tc() {
                cell_from(xml, k + 1, text, span, vm, in_text, depth + 1, seen_p)
            } else if t.name == tag_t() {
                cell_from(xml, k + 1, text, span, vm, true, depth, seen_p)
            } else if t.name == tag_p() && depth == 1 {
                cell_from(xml, k + 1, if seen_p { text.push('\n') } else { text }, span, vm, in_text, depth, true)
            } else if t.name == tag_grid_span() && depth == 1 {
                cell_from(xml, k + 1, text, span_spec(t), vm, in_text, depth, seen_p)
            } else if t.name == tag_v_merge() && depth == 1 {
                cell_from(xml, k + 1, text, span, vmerge_spec(t), in_text, depth, seen_p)
            } else {
                cell_from(xml, k + 1, text, span, vm, in_text, depth, seen_p)
            },
            Ok(XmlEventView::Empty(t)) => if t.name == tag_grid_span() && depth == 1 {
                cell_from(xml, k + 1, text, span_spec(t), vm, in_text, depth, seen_p)
            } else if t.name == tag_v_merge() && depth == 1 {
                cell_from(xml, k + 1, text, span, vmerge_spec(t), in_text, depth, seen_p)
            } else {
                cell_from(xml, k + 1, text, span, vm, in_text, depth, seen_p)
            },
            Ok(XmlEventView::Text(r)) => if in_text {
                match r {
                    Ok(x) => cell_from(xml, k + 1, text + x, span, vm, in_text, depth, seen_p),
                    Err(e) => Err(text_message(e)),
                }
            } else {
                cell_from(xml, k + 1, text, span, vm, in_text, depth, seen_p)
            },
            Ok(XmlEventView::End(n)) => if n == tag_t() {
                cell_from(xml, k + 1, text, span, vm, false, depth, seen_p)
            } else if n == tag_tc() {
                if depth - 1 == 0 {
                    Ok((k + 1, cell_view(text, span, vm)))
                } else {
                    cell_from(xml, k + 1, text, span, vm, in_text, depth - 1, seen_p)
                }
            } else {
                cell_from(xml, k + 1, text, span, vm, in_text, depth, seen_p)
            },
            Ok(XmlEventView::Eof) => Ok((k + 1, cell_view(text, span, vm))),
            Ok(XmlEventView::Other) => cell_from(xml, k + 1, text, span, vm, in_text, depth, seen_p),
        }
    }
}

pub proof fn lemma_cell_bounds(
    xml: Seq<u8>,
    k: int,
    text: Seq<char>,
    span: u16,
    vm: VMerge,
    in_text: bool,
    depth: int,
    seen_p: bool,
)
    requires
        0 <= k <= xml.len() + 1,
    ensures
        cell_from(xml, k, text, span, vm, in_text, depth, seen_p) matches Ok((k2, _)) ==> k <= k2
            <= xml.len() + 1,
    decreases xml.len() + 1 - k,
{
    if k <= xml.len() {
        match event_at(xml, k) {
            Err(_) => {},
            Ok(XmlEventView::Start(t)) => {
                if t.name == tag_tc() {
                    lemma_cell_bounds(xml, k + 1, text, span, vm, in_text, depth + 1, seen_p);
                } else if t.name == tag_t() {
                    lemma_cell_bounds(xml, k + 1, text, span, vm, true, depth, seen_p);
                } else if t.name == tag_p() && depth == 1 {
                    lemma_cell_bounds(xml, k + 1, if seen_p { text.push('\n') } else { text }, span, vm, in_text, depth, true);
                } else if t.name == tag_grid_span() && depth == 1 {
                    lemma_cell_bounds(xml, k + 1, text, span_spec(t), vm, in_text, depth, seen_p);
                } else if t.name == tag_v_merge() && depth == 1 {
                    lemma_cell_bounds(xml, k + 1, text, span, vmerge_spec(t), in_text, depth, seen_p);
                } else {
                    lemma_cell_bounds(xml, k + 1, text, span, vm, in_text, depth, seen_p);
                }
            },
            Ok(XmlEventView::Empty(t)) => {
                if t.name == tag_grid_span() && depth == 1 {
                    lemma_cell_bounds(xml, k + 1, text, span_spec(t), vm, in_text, depth, seen_p);
                } else if t.name == tag_v_merge() && depth == 1 {
                    lemma_cell_bounds(xml, k + 1, text, span, vmerge_spec(t), in_text, depth, seen_p);
                } else {
                    lemma_cell_bounds(xml, k + 1, text, span, vm, in_text, depth, seen_p);
                }
            },
            Ok(XmlEventView::Text(r)) => {
                if in_text {
                    if let Ok(x) = r {
                        lemma_cell_bounds(xml, k + 1, text + x, span, vm, in_text, depth, seen_p);
                    }
                } else {
                    lemma_cell_bounds(xml, k + 1, text, span, vm, in_text, depth, seen_p);
                }
            },
            Ok(XmlEventView::End(n)) => {
                if n == tag_t() {
                    lemma_cell_bounds(xml, k + 1, text, span, vm, false, depth, seen_p);
                } else if n == tag_tc() {
                    if depth - 1 != 0 {
                        lemma_cell_bounds(xml, k + 1, text, span, vm, in_text, depth - 1, seen_p);
                    }
                } else {
                    lemma_cell_bounds(xml, k + 1, text, span, vm, in_text, depth, seen_p);
                }
            },
            Ok(XmlEventView::Eof) => {},
            Ok(XmlEventView::Other) => {
                lemma_cell_bounds(xml, k + 1, text, span, vm, in_text, depth, seen_p);
            },
        }
    }
}

/// The cells of a row from the `k`-th event on: each `<w:tc>` starts a cell;
/// `</w:tr>` or the end of input finishes.
pub open spec fn row_from(xml: Seq<u8>, k: int, cells: Seq<RawCellView>) -> Result<
    (int, Seq<RawCellView>),
    Seq<char>,
>
    decreases xml.len() + 1 - k,
{
    if k < 0 || k > xml.len() {
        Ok((k, cells))
    } else {
        match event_at(xml, k) {
            Err(e) => Err(xml_message(e)),
            Ok(XmlEventView::Start(t)) => if t.name == tag_tc() {
                match cell_from(xml, k + 1, Seq::empty(), 1, VMerge::NoMerge, false, 1, false) {
                    Ok((k2, c)) => {
                        proof {
                            lemma_cell_bounds(xml, k + 1, Seq::empty(), 1, VMerge::NoMerge, false, 1, false);
                        }
                        row_from(xml, k2, cells.push(c))
                    },
                    Err(m) => Err(m),
                }
            } else {
                row_from(xml, k + 1, cells)
            },
            Ok(XmlEventView::End(n)) => if n == tag_tr() {
                Ok((k + 1, cells))
            } else {
                row_from(xml, k + 1, cells)
            },
            Ok(XmlEventView::Eof) => Ok((k + 1, cells)),
            Ok(_) => row_from(xml, k + 1, cells),
        }
    }
}

pub proof fn lemma_row_bounds(xml: Seq<u8>, k: int, cells: Seq<RawCellView>)
    requires
        0 <= k <= xml.len() + 1,
    ensures
        row_from(xml, k, cells) matches Ok((k2, _)) ==> k <= k2 <= xml.len() + 1,
    decreases xml.len() + 1 - k,
{
    if k <= xml.len() {
        match event_at(xml, k) {
            Ok(XmlEventView::Start(t)) => {
                if t.name == tag_tc() {
                    lemma_cell_bounds(xml, k + 1, Seq::empty(), 1, VMerge::NoMerge, false, 1, false);
                    if let Ok((k2, c)) = cell_from(xml, k + 1, Seq::empty(), 1, VMerge::NoMerge, false, 1, false) {
                        lemma_row_bounds(xml, k2, cells.push(c));
                    }
                } else {
                    lemma_row_bounds(xml, k + 1, cells);
                }
            },
            Ok(XmlEventView::End(n)) => {
                if n != tag_tr() {
                    lemma_row_bounds(xml, k + 1, cells);
                }
            },
            Ok(XmlEventView::Eof) => {},
            Err(_) => {},
            Ok(_) => {
                lemma_row_bounds(xml, k + 1, cells);
            },
        }
    }
}

/// The raw rows of a table from the `k`-th event on: each `<w:tr>` starts a
/// row; `</w:tbl>` or the end of input finishes.
pub open spec fn table_from(xml: Seq<u8>, k: int, rows: Seq<Seq<RawCellView>>) -> Result<
    (int, Seq<Seq<RawCellView>>),
    Seq<char>,
>
    decreases xml.len() + 1 - k,
{
    if k < 0 || k > xml.len() {
        Ok((k, rows))
    } else {
        match event_at(xml, k) {
            Err(e) => Err(xml_message(e)),
            Ok(XmlEventView::Start(t)) => if t.name == tag_tr() {
                match row_from(xml, k + 1, Seq::empty()) {
                    Ok((k2, row)) => {
                        proof {
                            lemma_row_bounds(xml, k + 1, Seq::empty());
                        }
                        table_from(xml, k2, rows.push(row))
                    },
                    Err(m) => Err(m),
                }
            } else {
                table_from(xml, k + 1, rows)
            },
            Ok(XmlEventView::End(n)) => if n == tag_tbl() {
                Ok((k + 1, rows))
            } else {
                table_from(xml, k + 1, rows)
            },
            Ok(XmlEventView::Eof) => Ok((k + 1, rows)),
            Ok(_) => table_from(xml, k + 1, rows),
        }
    }
}

pub proof fn lemma_table_bounds(xml: Seq<u8>, k: int, rows: Seq<Seq<RawCellView>>)
    requires
        0 <= k <= xml.len() + 1,
    ensures
        table_from(xml, k, rows) matches Ok((k2, _)) ==> k <= k2 <= xml.len() + 1,
    decreases xml.len() + 1 - k,
{
    if k <= xml.len() {
        match event_at(xml, k) {
            Ok(XmlEventView::Start(t)) => {
                if t.name == tag_tr() {
                    lemma_row_bounds(xml, k + 1, Seq::empty());
                    if let Ok((k2, row)) = row_from(xml, k + 1, Seq::empty()) {
                        lemma_table_bounds(xml, k2, rows.push(row));
                    }
                } else {
                    lemma_table_bounds(xml, k + 1, rows);
                }
            },
            Ok(XmlEventView::End(n)) => {
                if n != tag_tbl() {
                    lemma_table_bounds(xml, k + 1, rows);
                }
            },
            Ok(XmlEventView::Eof) => {},
            Err(_) => {},
            Ok(_) => {
                lemma_table_bounds(xml, k + 1, rows);
            },
        }
    }
}

/// `w:gridSpan @w:val` → column span (defaults to 1, never 0).
fn parse_span(t: &XmlTag) -> (n: u16)
    ensures
        n == span_spec(t@),
{
    let val: [u8; 3] = ['v' as u8, 'a' as u8, 'l' as u8];
    assert(val@ =~= attr_val_name());
    match attr_by_local(t, &val) {
        Some(v) => {
            let cs = chars_of(v.as_str());
            match parse_unsigned_chars(cs.as_slice(), 65535) {
                Some(n) => if n >= 1 {
                    n as u16
                } else {
                    1
                },
                None => 1,
            }
        },
        None => 1,
    }
}

/// `w:vMerge @w:val` → merge state. A present `w:vMerge` without `restart`
/// (including a bare `<w:vMerge/>`) continues the span above.
fn parse_vmerge(t: &XmlTag) -> (m: VMerge)
    ensures
        m == vmerge_spec(t@),
{
    let val: [u8; 3] = ['v' as u8, 'a' as u8, 'l' as u8];
    assert(val@ =~= attr_val_name());
    let restart: [char; 7] = ['r', 'e', 's', 't', 'a', 'r', 't'];
    assert(restart@ =~= restart_word());
    match attr_by_local(t, &val) {
        Some(v) => {
            let lower = lower_chars(chars_of(v.as_str()).as_slice());
            if chars_equal(lower.as_slice(), &restart) {
                VMerge::Restart
            } else {
                VMerge::Continue
            }
        },
        None => VMerge::Continue,
    }
}

pub open spec fn tag_names_wf(
    t_name: Seq<u8>,
    p_name: Seq<u8>,
    tc: Seq<u8>,
    grid_span: Seq<u8>,
    v_merge: Seq<u8>,
) -> bool {
    t_name == tag_t() && p_name == tag_p() && tc == tag_tc() && grid_span == tag_grid_span()
        && v_merge == tag_v_merge()
}

/// Consume a `w:tc` subtree (start already read) into a raw cell.
///
/// The depth counter guards against nested tables: `gridSpan`/`vMerge`/paragraph
/// separators apply to this cell only (depth 1), while nested-table text is still
/// folded into the cell text.
#[verifier::loop_isolation(false)]
fn read_cell(cur: &mut XmlCursor) -> (r: Result<RawCell, PdfmuseError>)
    requires
        0 <= old(cur).pos() <= old(cur).input().len() + 1,
        old(cur).input().len() <= usize::MAX,
    ensures
        final(cur).input() == old(cur).input(),
        match cell_from(old(cur).input(), old(cur).pos(), Seq::empty(), 1, VMerge::NoMerge, false, 1, false) {
            Ok((k2, c)) => r is Ok && final(cur).pos() == k2 && r->Ok_0@ == c,
            Err(m) => r is Err && (r->Err_0 matches PdfmuseError::Malformed(mm) && mm@ == m),
        },
{
    let ghost xml = cur.input();
    let ghost target = cell_from(xml, cur.pos(), Seq::empty(), 1, VMerge::NoMerge, false, 1, false);
    let t_name: [u8; 1] = ['t' as u8];
    let p_name: [u8; 1] = ['p' as u8];
    let tc: [u8; 2] = ['t' as u8, 'c' as u8];
    let grid_span: [u8; 8] = ['g' as u8, 'r' as u8, 'i' as u8, 'd' as u8, 'S' as u8, 'p' as u8, 'a' as u8, 'n' as u8];
    let v_merge: [u8; 6] = ['v' as u8, 'M' as u8, 'e' as u8, 'r' as u8, 'g' as u8, 'e' as u8];
    assert(tag_names_wf(t_name@, p_name@, tc@, grid_span@, v_merge@)) by {
        assert(t_name@ =~= tag_t());
        assert(p_name@ =~= tag_p());
        assert(tc@ =~= tag_tc());
        assert(grid_span@ =~= tag_grid_span());
        assert(v_merge@ =~= tag_v_merge());
    }
    let mut text = String::new();
    let mut col_span: u16 = 1;
    let mut vmerge = VMerge::NoMerge;
    let mut in_text = false;
    let mut depth: u128 = 1;
    let mut seen_p = false;

    loop
        invariant
            tag_names_wf(t_name@, p_name@, tc@, grid_span@, v_merge@),
            cur.input() == xml,
            0 <= cur.pos() <= xml.len() + 1,
            1 <= depth <= cur.pos() + 1,
            xml.len() <= usize::MAX,
            cell_from(xml, cur.pos(), text@, col_span, vmerge, in_text, depth as int, seen_p) == target,
        decreases xml.len() + 1 - cur.pos(),
    {
        let ev = cur.next();
        match ev {
            Err(e) => {
                return Err(malformed_with("invalid DOCX XML: ", e.as_str()));
            },
            Ok(XmlEvent::Start(t)) => {
                if tag_is(&t, &tc) {
                    depth = depth + 1;
                } else if tag_is(&t, &t_name) {
                    in_text = true;
                } else if tag_is(&t, &p_name) && depth == 1 {
                    if seen_p {
                        push_char(&mut text, '\n');
                    }
                    seen_p = true;
                } else if tag_is(&t, &grid_span) && depth == 1 {
                    col_span = parse_span(&t);
                } else if tag_is(&t, &v_merge) && depth == 1 {
                    vmerge = parse_vmerge(&t);
                }
            },
            Ok(XmlEvent::Empty(t)) => {
                if tag_is(&t, &grid_span) && depth == 1 {
                    col_span = parse_span(&t);
                } else if tag_is(&t, &v_merge) && depth == 1 {
                    vmerge = parse_vmerge(&t);
                }
            },
            Ok(XmlEvent::Text(r)) => {
                if in_text {
                    match r {
                        Ok(s) => {
                            text.append(s.as_str());
                        },
                        Err(e) => {
                            return Err(malformed_with("invalid DOCX text: ", e.as_str()));
                        },
                    }
                }
            },
            Ok(XmlEvent::End(n)) => {
                if bytes_equal(n.as_slice(), &t_name) {
                    in_text = false;
                } else if bytes_equal(n.as_slice(), &tc) {
                    depth = depth - 1;
                    if depth == 0 {
                        return Ok(RawCell { text, col_span, vmerge, grid_col: 0 });
                    }
                }
            },
            Ok(XmlEvent::Eof) => {
                return Ok(RawCell { text, col_span, vmerge, grid_col: 0 });
            },
            Ok(XmlEvent::Other) => {},
        }
    }
}

/// Consume a `w:tr` subtree (start already read) into its cells.
#[verifier::loop_isolation(false)]
fn read_row(cur: &mut XmlCursor) -> (r: Result<Vec<RawCell>, PdfmuseError>)
    requires
        0 <= old(cur).pos() <= old(cur).input().len() + 1,
        old(cur).input().len() <= usize::MAX,
    ensures
        final(cur).input() == old(cur).input(),
        match row_from(old(cur).input(), old(cur).pos(), Seq::empty()) {
            Ok((k2, cells)) => r is Ok && final(cur).pos() == k2 && raw_row_view(r->Ok_0@) == cells,
            Err(m) => r is Err && (r->Err_0 matches PdfmuseError::Malformed(mm) && mm@ == m),
        },
{
    let ghost xml = cur.input();
    let ghost target = row_from(xml, cur.pos(), Seq::empty());
    let tc: [u8; 2] = ['t' as u8, 'c' as u8];
    let tr: [u8; 2] = ['t' as u8, 'r' as u8];
    assert(tc@ =~= tag_tc());
    assert(tr@ =~= tag_tr());
    let mut cells: Vec<RawCell> = Vec::new();
    assert(raw_row_view(cells@) =~= Seq::<RawCellView>::empty());
    loop
        invariant
            tc@ == tag_tc(),
            tr@ == tag_tr(),
            cur.input() == xml,
            0 <= cur.pos() <= xml.len() + 1,
            row_from(xml, cur.pos(), raw_row_view(cells@)) == target,
        decreases xml.len() + 1 - cur.pos(),
    {
        let ghost k = cur.pos();
        let ev = cur.next();
        match ev {
            Err(e) => {
                return Err(malformed_with("invalid DOCX XML: ", e.as_str()));
            },
            Ok(XmlEvent::Start(t)) => {
                if tag_is(&t, &tc) {
                    proof {
                        lemma_cell_bounds(xml, k + 1, Seq::empty(), 1, VMerge::NoMerge, false, 1, false);
                    }
                    let c = read_cell(cur)?;
                    let ghost prev = cells@;
                    cells.push(c);
                    assert(raw_row_view(cells@) =~= raw_row_view(prev).push(c@));
                }
            },
            Ok(XmlEvent::End(n)) => {
                if bytes_equal(n.as_slice(), &tr) {
                    return Ok(cells);
                }
            },
            Ok(XmlEvent::Eof) => {
                return Ok(cells);
            },
            Ok(_) => {},
        }
    }
}

/// Consume a `w:tbl` subtree (start already read) into its raw rows.
#[verifier::loop_isolation(false)]
fn read_table_rows(cur: &mut XmlCursor) -> (r: Result<Vec<Vec<RawCell>>, PdfmuseError>)
    requires
        0 <= old(cur).pos() <= old(cur).input().len() + 1,
        old(cur).input().len() <= usize::MAX,
    ensures
        final(cur).input() == old(cur).input(),
        match table_from(old(cur).input(), old(cur).pos(), Seq::empty()) {
            Ok((k2, rows)) => r is Ok && final(cur).pos() == k2 && raw_rows_view(r->Ok_0@) == rows,
            Err(m) => r is Err && (r->Err_0 matches PdfmuseError::Malformed(mm) && mm@ == m),
        },
{
    let ghost xml = cur.input();
    let ghost target = table_from(xml, cur.pos(), Seq::empty());
    let tr: [u8; 2] = ['t' as u8, 'r' as u8];
    let tbl: [u8; 3] = ['t' as u8, 'b' as u8, 'l' as u8];
    assert(tr@ =~= tag_tr());
    assert(tbl@ =~= tag_tbl());
    let mut rows: Vec<Vec<RawCell>> = Vec::new();
    assert(raw_rows_view(rows@) =~= Seq::<Seq<RawCellView>>::empty());
    loop
        invariant
            tbl@ == tag_tbl(),
            tr@ == tag_tr(),
            cur.input() == xml,
            0 <= cur.pos() <= xml.len() + 1,
            table_from(xml, cur.pos(), raw_rows_view(rows@)) == target,
        decreases xml.len() + 1 - cur.pos(),
    {
        let ghost k = cur.pos();
        let ev = cur.next();
        match ev {
            Err(e) => {
                return Err(malformed_with("invalid DOCX XML: ", e.as_str()));
            },
            Ok(XmlEvent::Start(t)) => {
                if tag_is(&t, &tr) {
                    proof {
                        lemma_row_bounds(xml, k + 1, Seq::empty());
                    }
                    let row = read_row(cur)?;
                    let ghost prev = rows@;
                    rows.push(row);
                    assert(raw_rows_view(rows@) =~= raw_rows_view(prev).push(raw_row_view(row@)));
                }
            },
            Ok(XmlEvent::End(n)) => {
                if bytes_equal(n.as_slice(), &tbl) {
                    return Ok(rows);
                }
            },
            Ok(XmlEvent::Eof) => {
                return Ok(rows);
            },
            Ok(_) => {},
        }
    }
}

// ---------------------------------------------------------------------------
// The document body
// ---------------------------------------------------------------------------

/// A body block as the contracts see it.
pub ghost enum DocxBlockView {
    /// Text and heading level.
    Paragraph(Seq<char>, Option<u8>),
    /// Each row's cells as `(text, row_span, col_span)`.
    Table(Seq<Seq<(Seq<char>, u16, u16)>>),
}

/// A paragraph's heading level from its style id, if it has one.
pub open spec fn style_heading(styles: Map<Seq<char>, u8>, style: Option<Seq<char>>) -> Option<u8> {
    match style {
        Some(id) => heading_level_spec(styles, id),
        None => None,
    }
}

/// The body blocks from the `k`-th event on, after `blocks`: each top-level
/// `<w:p>` gives a paragraph, each `<w:tbl>` a table (its merges resolved);
/// the end of input finishes, and any error is fatal.
pub open spec fn doc_from(xml: Seq<u8>, styles: Map<Seq<char>, u8>, k: int, blocks: Seq<DocxBlockView>) -> Result<Seq<DocxBlockView>, Seq<char>>
    decreases xml.len() + 1 - k,
{
    if k < 0 || k > xml.len() {
        Ok(blocks)
    } else {
        match event_at(xml, k) {
            Err(e) => Err(xml_message(e)),
            Ok(XmlEventView::Start(t)) => if t.name == tag_p() {
                match paragraph_from(xml, k + 1, Seq::empty(), None, false) {
                    Ok((k2, text, style)) => {
                        proof {
                            lemma_paragraph_bounds(xml, k + 1, Seq::empty(), None, false);
                        }
                        doc_from(xml, styles, k2, blocks.push(DocxBlockView::Paragraph(text, style_heading(styles, style))))
                    },
                    Err(m) => Err(m),
                }
            } else if t.name == tag_tbl() {
                match table_from(xml, k + 1, Seq::empty()) {
                    Ok((k2, rows)) => {
                        proof {
                            lemma_table_bounds(xml, k + 1, Seq::empty());
                        }
                        doc_from(xml, styles, k2, blocks.push(DocxBlockView::Table(resolved_rows(gridded(rows)))))
                    },
                    Err(m) => Err(m),
                }
            } else {
                doc_from(xml, styles, k + 1, blocks)
            },
            Ok(XmlEventView::Eof) => Ok(blocks),
            Ok(_) => doc_from(xml, styles, k + 1, blocks),
        }
    }
}

/// The body blocks of a `document.xml` part under the style table `styles`.
pub open spec fn document_spec(xml: Seq<u8>, styles: Map<Seq<char>, u8>) -> Result<Seq<DocxBlockView>, Seq<char>> {
    doc_from(xml, styles, 0, Seq::empty())
}

pub open spec fn zero_box() -> BBox {
    BBox { x0: 0, y0: 0, x1: 0, y1: 0 }
}

/// The block is the one `v` describes, with no geometry (DOCX carries none).
pub open spec fn block_matches(b: Block, v: DocxBlockView) -> bool {
    match v {
        DocxBlockView::Paragraph(text, level) => b matches Block::Paragraph(p) && p.text@ == text
            && p.heading_level == level && p.role is None && p.bbox == zero_box(),
        DocxBlockView::Table(rows) => b matches Block::Table(t) && crate::docx::table::table_triples(t.rows@) == rows
            && t.source == TableSource::Docx && t.bbox == zero_box() && cells_unplaced(t.rows@),
    }
}

pub open spec fn blocks_match(bs: Seq<Block>, vs: Seq<DocxBlockView>) -> bool {
    bs.len() == vs.len() && forall|i: int| 0 <= i < bs.len() ==> block_matches(#[trigger] bs[i], vs[i])
}

/// Parse the document body into blocks in reading order.
#[verifier::loop_isolation(false)]
pub fn parse_document(xml: &[u8], styles: &StyleMap) -> (r: Result<Vec<Block>, PdfmuseError>)
    ensures
        match document_spec(xml@, styles@) {
            Ok(vs) => r is Ok && blocks_match(r->Ok_0@, vs),
            Err(m) => r is Err && (r->Err_0 matches PdfmuseError::Malformed(mm) && mm@ == m),
        },
{
    let p_name: [u8; 1] = ['p' as u8];
    let tbl: [u8; 3] = ['t' as u8, 'b' as u8, 'l' as u8];
    assert(p_name@ =~= tag_p());
    assert(tbl@ =~= tag_tbl());
    let mut cur = XmlCursor::open(xml);
    let ghost target = document_spec(xml@, styles@);
    let mut blocks: Vec<Block> = Vec::new();
    let ghost mut views: Seq<DocxBlockView> = Seq::empty();
    loop
        invariant
            p_name@ == tag_p(),
            tbl@ == tag_tbl(),
            cur.input() == xml@,
            cur.input().len() <= usize::MAX,
            0 <= cur.pos() <= xml@.len() + 1,
            blocks_match(blocks@, views),
            doc_from(xml@, styles@, cur.pos(), views) == target,
        decreases xml@.len() + 1 - cur.pos(),
    {
        let ghost k = cur.pos();
        let ev = cur.next();
        match ev {
            Err(e) => {
                return Err(malformed_with("invalid DOCX XML: ", e.as_str()));
            },
            Ok(XmlEvent::Start(t)) => {
                if tag_is(&t, &p_name) {
                    proof {
                        lemma_paragraph_bounds(xml@, k + 1, Seq::empty(), None, false);
                    }
                    let (text, style_id) = read_paragraph(&mut cur)?;
                    let level = match &style_id {
                        Some(id) => heading_level(styles, id.as_str()),
                        None => None,
                    };
                    let para = Paragraph { bbox: BBox::zero(), text, heading_level: level, role: None };
                    let ghost prev_b = blocks@;
                    let ghost prev_v = views;
                    blocks.push(Block::Paragraph(para));
                    proof {
                        views = views.push(DocxBlockView::Paragraph(text@, level));
                        assert forall|i: int| 0 <= i < blocks@.len() implies block_matches(#[trigger] blocks@[i], views[i]) by {
                            if i < blocks@.len() - 1 {
                                assert(blocks@[i] == prev_b[i]);
                                assert(views[i] == prev_v[i]);
                            }
                        }
                    }
                } else if tag_is(&t, &tbl) {
                    proof {
                        lemma_table_bounds(xml@, k + 1, Seq::empty());
                    }
                    let rows = read_table_rows(&mut cur)?;
                    let table = build_table(rows);
                    let ghost prev_b = blocks@;
                    let ghost prev_v = views;
                    blocks.push(Block::Table(table));
                    proof {
                        views = views.push(DocxBlockView::Table(resolved_rows(gridded(raw_rows_view(rows@)))));
                        assert forall|i: int| 0 <= i < blocks@.len() implies block_matches(#[trigger] blocks@[i], views[i]) by {
                            if i < blocks@.len() - 1 {
                                assert(blocks@[i] == prev_b[i]);
                                assert(views[i] == prev_v[i]);
                            }
                        }
                    }
                }
            },
            Ok(XmlEvent::Eof) => {
                return Ok(blocks);
            },
            Ok(_) => {},
        }
    }
}

} // verus!
