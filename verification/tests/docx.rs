use std::io::{Cursor, Write};

use pdfmuse_core::docx::parse;
use pdfmuse_core::docx::styles::{heading_level, parse_styles, StyleMap};
use pdfmuse_core::docx::table::{vertical_span, RawCell, VMerge};
use pdfmuse_core::error::PdfmuseError;
use pdfmuse_core::ir::{Block, SourceKind, TableSource};
use zip::write::{SimpleFileOptions, ZipWriter};

/// Build a minimal `.docx` in memory from raw XML parts.
fn build_docx(document_xml: &str, styles_xml: Option<&str>) -> Vec<u8> {
    let mut buf = Vec::new();
    {
        let mut zw = ZipWriter::new(Cursor::new(&mut buf));
        let opts = SimpleFileOptions::default();
        zw.start_file("word/document.xml", opts).unwrap();
        zw.write_all(document_xml.as_bytes()).unwrap();
        if let Some(s) = styles_xml {
            zw.start_file("word/styles.xml", opts).unwrap();
            zw.write_all(s.as_bytes()).unwrap();
        }
        zw.finish().unwrap();
    }
    buf
}

/// A Heading-1 title, a normal paragraph, and a 2x2 table whose first row is
/// a single `gridSpan=2` merged cell.
const DOC: &str = r#"<?xml version="1.0" encoding="UTF-8" standalone="yes"?>
<w:document xmlns:w="http://schemas.openxmlformats.org/wordprocessingml/2006/main">
  <w:body>
    <w:p><w:pPr><w:pStyle w:val="Heading1"/></w:pPr><w:r><w:t>Title</w:t></w:r></w:p>
    <w:p><w:r><w:t xml:space="preserve">Body text</w:t></w:r></w:p>
    <w:tbl>
      <w:tr>
        <w:tc><w:tcPr><w:gridSpan w:val="2"/></w:tcPr><w:p><w:r><w:t>Merged</w:t></w:r></w:p></w:tc>
      </w:tr>
      <w:tr>
        <w:tc><w:p><w:r><w:t>R2C1</w:t></w:r></w:p></w:tc>
        <w:tc><w:p><w:r><w:t>R2C2</w:t></w:r></w:p></w:tc>
      </w:tr>
    </w:tbl>
  </w:body>
</w:document>"#;

const STYLES: &str = r#"<?xml version="1.0" encoding="UTF-8" standalone="yes"?>
<w:styles xmlns:w="http://schemas.openxmlformats.org/wordprocessingml/2006/main">
  <w:style w:type="paragraph" w:styleId="Heading1"><w:name w:val="heading 1"/></w:style>
</w:styles>"#;

#[test]
fn parses_headings_paragraphs_and_merged_table() {
    let doc = parse(&build_docx(DOC, Some(STYLES))).expect("parses a DOCX");
    assert_eq!(doc.source, SourceKind::Docx);
    assert_eq!(doc.pages.len(), 1);

    let blocks = &doc.pages[0].blocks;
    assert_eq!(blocks.len(), 3);

    match &blocks[0] {
        Block::Paragraph(p) => {
            assert_eq!(p.text, "Title");
            assert_eq!(p.heading_level, Some(1));
        }
        other => panic!("expected heading paragraph, got {other:?}"),
    }
    match &blocks[1] {
        Block::Paragraph(p) => {
            assert_eq!(p.text, "Body text");
            assert_eq!(p.heading_level, None);
        }
        other => panic!("expected body paragraph, got {other:?}"),
    }
    match &blocks[2] {
        Block::Table(t) => {
            assert_eq!(t.source, TableSource::Docx);
            assert_eq!(t.rows.len(), 2);
            // Row 0: a single cell spanning both columns.
            assert_eq!(t.rows[0].len(), 1);
            assert_eq!(t.rows[0][0].text, "Merged");
            assert_eq!(t.rows[0][0].col_span, 2);
            assert_eq!(t.rows[0][0].row_span, 1);
            // Row 1: two ordinary cells.
            assert_eq!(t.rows[1].len(), 2);
            assert_eq!(t.rows[1][0].text, "R2C1");
            assert_eq!(t.rows[1][1].text, "R2C2");
        }
        other => panic!("expected table, got {other:?}"),
    }
}

#[test]
fn heading_level_resolves_without_styles_xml() {
    // No styles.xml: the `Heading1` style id must still resolve via the fallback.
    let doc = parse(&build_docx(DOC, None)).unwrap();
    match &doc.pages[0].blocks[0] {
        Block::Paragraph(p) => assert_eq!(p.heading_level, Some(1)),
        other => panic!("expected paragraph, got {other:?}"),
    }
}

#[test]
fn vertical_merge_sets_row_span_and_omits_covered_cells() {
    let doc_xml = r#"<?xml version="1.0"?>
<w:document xmlns:w="http://schemas.openxmlformats.org/wordprocessingml/2006/main"><w:body>
  <w:tbl>
    <w:tr>
      <w:tc><w:tcPr><w:vMerge w:val="restart"/></w:tcPr><w:p><w:r><w:t>Span</w:t></w:r></w:p></w:tc>
      <w:tc><w:p><w:r><w:t>A</w:t></w:r></w:p></w:tc>
    </w:tr>
    <w:tr>
      <w:tc><w:tcPr><w:vMerge/></w:tcPr><w:p><w:r><w:t>hidden</w:t></w:r></w:p></w:tc>
      <w:tc><w:p><w:r><w:t>B</w:t></w:r></w:p></w:tc>
    </w:tr>
  </w:tbl>
</w:body></w:document>"#;
    let doc = parse(&build_docx(doc_xml, None)).unwrap();
    match &doc.pages[0].blocks[0] {
        Block::Table(t) => {
            assert_eq!(t.rows[0].len(), 2);
            assert_eq!(t.rows[0][0].text, "Span");
            assert_eq!(t.rows[0][0].row_span, 2);
            // The covered cell in row 1 is omitted; only "B" survives.
            assert_eq!(t.rows[1].len(), 1);
            assert_eq!(t.rows[1][0].text, "B");
        }
        other => panic!("expected table, got {other:?}"),
    }
}

#[test]
fn non_zip_bytes_are_malformed() {
    assert!(matches!(parse(b"definitely not a zip"), Err(PdfmuseError::Malformed(_))));
}

#[test]
fn zip_without_document_xml_is_malformed() {
    let mut buf = Vec::new();
    {
        let mut zw = ZipWriter::new(Cursor::new(&mut buf));
        zw.start_file("word/other.xml", SimpleFileOptions::default()).unwrap();
        zw.write_all(b"<x/>").unwrap();
        zw.finish().unwrap();
    }
    assert!(matches!(parse(&buf), Err(PdfmuseError::Malformed(_))));
}

#[test]
fn resolves_name_and_id_forms() {
    let styles = parse_styles(
        br#"<w:styles xmlns:w="http://schemas.openxmlformats.org/wordprocessingml/2006/main">
                <w:style w:styleId="H2"><w:name w:val="heading 2"/></w:style>
                <w:style w:styleId="Body"><w:name w:val="Body Text"/></w:style>
            </w:styles>"#,
    )
    .unwrap();

    // Named "heading 2": level 2 under its custom id.
    assert_eq!(heading_level(&styles, "H2"), Some(2));
    // Non-heading style: None.
    assert_eq!(heading_level(&styles, "Body"), None);
    // Unknown id that looks like `Heading{N}` resolves via the fallback.
    assert_eq!(heading_level(&styles, "Heading4"), Some(4));
    assert_eq!(heading_level(&styles, "Normal"), None);
    // Out-of-range levels are rejected.
    assert_eq!(heading_level(&StyleMap::new(), "Heading12"), None);
}

#[test]
fn broken_document_xml_is_malformed() {
    let doc = build_docx("<w:document><w:body><w:p></w:body>", None);
    match parse(&doc) {
        Err(PdfmuseError::Malformed(m)) => assert!(m.starts_with("invalid DOCX XML: ")),
        other => panic!("expected malformed, got {other:?}"),
    }
}

#[test]
fn malformed_messages_name_the_problem() {
    match parse(b"definitely not a zip") {
        Err(e) => assert!(e.message().starts_with("malformed document: not a valid DOCX (ZIP) container: ")),
        Ok(_) => panic!("expected an error"),
    }
}

#[test]
fn vertical_span_past_the_last_row_is_one() {
    let rows: Vec<Vec<RawCell>> = vec![vec![RawCell { text: "a".to_string(), col_span: 1, vmerge: VMerge::Restart, grid_col: 0 }]];
    assert_eq!(vertical_span(&rows, 5, 0), 1);
    assert_eq!(vertical_span(&rows, 0, 0), 1);
}
