use pdfmuse_core::ir::{
    BBox, Block, Cell, Document, Metadata, Page, Paragraph, SourceKind, Table, TableSource,
};
use pdfmuse_core::markdown::{escape_cell, paragraph_md, table_md, to_markdown};

fn bbox() -> BBox {
    BBox { x0: 0, y0: 0, x1: 1000, y1: 1000 }
}

fn para(text: &str, level: Option<u8>) -> Paragraph {
    Paragraph { bbox: bbox(), text: text.into(), heading_level: level, role: None }
}

fn cell(t: &str) -> Cell {
    Cell { text: t.into(), bbox: bbox(), row_span: 1, col_span: 1 }
}

fn doc_of(blocks: Vec<Block>) -> Document {
    let mut page = Page::empty(0, 0, 0);
    page.blocks = blocks;
    Document {
        source: SourceKind::Pdf,
        metadata: Metadata { page_count: 1, title: None },
        pages: vec![page],
        warnings: vec![],
    }
}

/// A page with a heading, a paragraph, and a 2x2 ruled table.
fn sample_doc() -> Document {
    doc_of(vec![
        Block::Paragraph(para("Title", Some(1))),
        Block::Paragraph(para("Hello world", None)),
        Block::Table(Table {
            bbox: bbox(),
            rows: vec![vec![cell("a"), cell("b")], vec![cell("c"), cell("d")]],
            source: TableSource::Ruled,
        }),
    ])
}

#[test]
fn markdown_renders_heading_paragraph_and_table() {
    let md = to_markdown(&sample_doc());
    assert!(md.starts_with("# Title"), "got: {md}");
    assert!(md.contains("Hello world"));
    // Header separator row and cell text present.
    assert!(md.contains("| --- | --- |"));
    assert!(md.contains("| a | b |"));
    assert!(md.contains("| c | d |"));
}

#[test]
fn markdown_exact_layout() {
    let md = to_markdown(&sample_doc());
    assert_eq!(md, "# Title\n\nHello world\n\n| a | b |\n| --- | --- |\n| c | d |");
}

#[test]
fn heading_levels_and_zero_level() {
    assert_eq!(paragraph_md(&para("H", Some(3))), "### H");
    assert_eq!(paragraph_md(&para("plain", Some(0))), "plain");
    assert_eq!(paragraph_md(&para("plain", None)), "plain");
}

#[test]
fn cells_escape_pipes_and_newlines() {
    assert_eq!(escape_cell("a|b\nc"), "a\\|b c");
}

#[test]
fn spans_expand_and_short_rows_pad() {
    let mut wide = cell("w");
    wide.col_span = 2;
    let t = Table { bbox: bbox(), rows: vec![vec![wide], vec![cell("x")]], source: TableSource::Docx };
    assert_eq!(table_md(&t), "| w | w |\n| --- | --- |\n| x |  |");
    let empty = Table { bbox: bbox(), rows: vec![], source: TableSource::Docx };
    assert_eq!(table_md(&empty), "");
}

#[test]
fn empty_document_renders_empty() {
    assert_eq!(to_markdown(&doc_of(vec![])), "");
}
