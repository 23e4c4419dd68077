//! The unified intermediate representation that every parser produces and
//! every renderer consumes.
//!
//! Geometry is held in fixed point: one unit is a hundredth of a PDF point
//! (a "centipoint"), with the origin at the top-left of the page and Y
//! growing downwards. Font sizes use the same unit.

use vstd::prelude::*;

verus! {

/// Units per PDF point in every coordinate and size of the IR.
pub const UNITS_PER_POINT: i32 = 100;

/// An axis-aligned box: `x0 <= x1` and `y0 <= y1` for real content.
#[derive(Clone, Copy, Debug, PartialEq, Eq)]
pub struct BBox {
    pub x0: i32,
    pub y0: i32,
    pub x1: i32,
    pub y1: i32,
}

impl BBox {
    /// The empty box at the origin (what DOCX content, which has no geometry, carries).
    pub fn zero() -> (b: BBox)
        ensures
            b.x0 == 0 && b.y0 == 0 && b.x1 == 0 && b.y1 == 0,
    {
        BBox { x0: 0, y0: 0, x1: 0, y1: 0 }
    }
}

/// The font a character was drawn with.
#[derive(Clone, Debug, PartialEq, Eq)]
pub struct FontRef {
    pub name: String,
}

/// One positioned character (or ligature) as drawn on the page.
#[derive(Clone, Debug, PartialEq, Eq)]
pub struct Char {
    pub text: String,
    pub bbox: BBox,
    pub font: FontRef,
    /// Font size, in the IR's unit.
    pub size: i32,
    /// Fill colour as `0xRRGGBB`, when known.
    pub color: Option<u32>,
}

/// A run of characters on one baseline.
#[derive(Clone, Debug, PartialEq, Eq)]
pub struct TextLine {
    pub bbox: BBox,
    pub text: String,
    /// Indices into the page's `chars` of the characters on this line.
    pub chars: Vec<u32>,
}

/// A drawn straight line (a vector rule).
#[derive(Clone, Copy, Debug, PartialEq, Eq)]
pub struct Rule {
    pub x0: i32,
    pub y0: i32,
    pub x1: i32,
    pub y1: i32,
    pub width: i32,
}

/// A drawn rectangle.
#[derive(Clone, Copy, Debug, PartialEq, Eq)]
pub struct Rect {
    pub bbox: BBox,
}

/// A table cell; spans count grid rows and columns.
#[derive(Clone, Debug, PartialEq, Eq)]
pub struct Cell {
    pub text: String,
    pub bbox: BBox,
    pub row_span: u16,
    pub col_span: u16,
}

/// Where a table's structure came from.
#[derive(Clone, Copy, Debug, PartialEq, Eq)]
pub enum TableSource {
    /// Reconstructed from drawn rules and rectangles.
    Ruled,
    /// Reconstructed from whitespace-aligned text.
    Whitespace,
    /// Read from a DOCX table.
    Docx,
}

/// A table: rows of cells, cells covered by a span omitted.
#[derive(Clone, Debug, PartialEq, Eq)]
pub struct Table {
    pub bbox: BBox,
    pub rows: Vec<Vec<Cell>>,
    pub source: TableSource,
}

/// The role of a block that is not body text.
#[derive(Clone, Copy, Debug, PartialEq, Eq)]
pub enum BlockRole {
    /// A running header or footer repeated across pages.
    HeaderFooter,
}

/// A paragraph of text; `heading_level` is `Some(n)` for a level-`n` heading.
#[derive(Clone, Debug, PartialEq, Eq)]
pub struct Paragraph {
    pub bbox: BBox,
    pub text: String,
    pub heading_level: Option<u8>,
    pub role: Option<BlockRole>,
}

/// An image placed on the page.
#[derive(Clone, Copy, Debug, PartialEq, Eq)]
pub struct Image {
    pub bbox: BBox,
}

/// A reading-order unit of page content.
#[derive(Clone, Debug, PartialEq, Eq)]
pub enum Block {
    Paragraph(Paragraph),
    Table(Table),
    Image(Image),
}

/// One page: raw content (chars, rules, rects) and derived structure (lines, blocks).
#[derive(Clone, Debug, PartialEq, Eq)]
pub struct Page {
    /// 0-based page index.
    pub index: u32,
    pub width: i32,
    pub height: i32,
    pub chars: Vec<Char>,
    pub lines: Vec<TextLine>,
    pub blocks: Vec<Block>,
    pub rules: Vec<Rule>,
    pub rects: Vec<Rect>,
}

impl Page {
    /// An empty page of the given index and size.
    pub fn empty(index: u32, width: i32, height: i32) -> (p: Page)
        ensures
            p.index == index,
            p.width == width,
            p.height == height,
            p.chars@.len() == 0,
            p.lines@.len() == 0,
            p.blocks@.len() == 0,
            p.rules@.len() == 0,
            p.rects@.len() == 0,
    {
        Page {
            index,
            width,
            height,
            chars: Vec::new(),
            lines: Vec::new(),
            blocks: Vec::new(),
            rules: Vec::new(),
            rects: Vec::new(),
        }
    }
}

/// The container format a document came from.
#[derive(Clone, Copy, Debug, PartialEq, Eq)]
pub enum SourceKind {
    Pdf,
    Docx,
}

/// Document-level facts.
#[derive(Clone, Debug, PartialEq, Eq)]
pub struct Metadata {
    pub page_count: u32,
    pub title: Option<String>,
}

/// What kind of degradation a warning reports.
#[derive(Clone, Copy, Debug, PartialEq, Eq)]
pub enum WarningKind {
    /// An object or stream was damaged and (part of) it was skipped.
    MalformedObject,
    /// A font has no usable map to Unicode.
    MissingCMap,
    /// A page carries no text and needs OCR.
    NeedsOcr,
}

/// A non-fatal problem: parsing went on without the affected part.
#[derive(Clone, Debug, PartialEq, Eq)]
pub struct Warning {
    pub page: Option<u32>,
    pub kind: WarningKind,
    pub detail: String,
}

/// A parsed document.
#[derive(Clone, Debug, PartialEq, Eq)]
pub struct Document {
    pub source: SourceKind,
    pub metadata: Metadata,
    pub pages: Vec<Page>,
    pub warnings: Vec<Warning>,
}

} // verus!
