use pdfmuse_core::ir::{BBox, Block, Char, FontRef, TextLine};
use pdfmuse_core::layout::paragraphs::{group_paragraphs, line_size};

/// Points to IR units (hundredths of a point).
fn pt(v: f32) -> i32 {
    (v * 100.0).round() as i32
}

fn line(text: &str, y0: f32, y1: f32) -> TextLine {
    TextLine {
        bbox: BBox { x0: pt(0.0), y0: pt(y0), x1: pt(100.0), y1: pt(y1) },
        text: text.into(),
        chars: vec![],
    }
}

fn sized_char(size: f32) -> Char {
    Char {
        text: "x".into(),
        bbox: BBox { x0: 0, y0: 0, x1: 100, y1: 100 },
        font: FontRef { name: "F".into() },
        size: pt(size),
        color: None,
    }
}

fn text(b: &Block) -> &str {
    match b {
        Block::Paragraph(p) => &p.text,
        _ => "",
    }
}

#[test]
fn tight_lines_form_one_paragraph() {
    // Two 10pt-high lines, 2pt apart: same paragraph.
    let lines = vec![line("first", 0.0, 10.0), line("second", 12.0, 22.0)];
    let blocks = group_paragraphs(&lines, &vec![]);
    assert_eq!(blocks.len(), 1);
    match &blocks[0] {
        Block::Paragraph(p) => assert_eq!(p.text, "first second"),
        _ => panic!("expected paragraph"),
    }
}

#[test]
fn wide_gap_splits_paragraphs() {
    // Second line 20pt below the first (gap 20 > 0.6 x 10): two paragraphs.
    let lines = vec![line("para one", 0.0, 10.0), line("para two", 30.0, 40.0)];
    let blocks = group_paragraphs(&lines, &vec![]);
    assert_eq!(blocks.len(), 2);
}

#[test]
fn empty_lines_yield_no_blocks() {
    assert!(group_paragraphs(&vec![], &vec![]).is_empty());
}

#[test]
fn gap_exactly_at_threshold_keeps_paragraph() {
    // Gap 6pt on a 10pt line is 0.6 x height: not more, so no break.
    let lines = vec![line("a", 0.0, 10.0), line("b", 16.0, 26.0)];
    assert_eq!(group_paragraphs(&lines, &vec![]).len(), 1);
    // Just above the threshold: a break.
    let lines = vec![line("a", 0.0, 10.0), line("b", 16.01, 26.0)];
    assert_eq!(group_paragraphs(&lines, &vec![]).len(), 2);
}

#[test]
fn paragraph_box_is_union_of_lines() {
    let mut a = line("a", 0.0, 10.0);
    a.bbox.x0 = pt(5.0);
    let mut b = line("b", 11.0, 21.0);
    b.bbox.x0 = pt(10.0);
    b.bbox.x1 = pt(150.0);
    let blocks = group_paragraphs(&vec![a, b], &vec![]);
    match &blocks[0] {
        Block::Paragraph(p) => {
            assert_eq!(p.bbox, BBox { x0: pt(5.0), y0: 0, x1: pt(150.0), y1: pt(21.0) });
            assert_eq!(p.heading_level, None);
        }
        _ => panic!("expected paragraph"),
    }
}

#[test]
fn font_size_change_splits_heading_from_body() {
    // 18pt heading line directly above a 10pt body line: a size break.
    let chars = vec![sized_char(18.0), sized_char(10.0), sized_char(10.0)];
    let mut heading = line("Title", 0.0, 18.0);
    heading.chars = vec![0];
    let mut body = line("Body", 19.0, 29.0);
    body.chars = vec![1, 2];
    let blocks = group_paragraphs(&vec![heading, body], &chars);
    let got: Vec<&str> = blocks.iter().map(text).collect();
    assert_eq!(got, vec!["Title", "Body"]);
}

#[test]
fn small_size_change_does_not_split() {
    // 11pt over 10pt is a 10% difference: at most 15%, no break.
    let chars = vec![sized_char(11.0), sized_char(10.0)];
    let mut a = line("a", 0.0, 10.0);
    a.chars = vec![0];
    let mut b = line("b", 11.0, 21.0);
    b.chars = vec![1];
    assert_eq!(group_paragraphs(&vec![a, b], &chars).len(), 1);
}

#[test]
fn line_size_is_the_most_common_half_point() {
    let chars = vec![sized_char(10.0), sized_char(12.0), sized_char(12.1), sized_char(10.0), sized_char(10.2)];
    let mut l = line("x", 0.0, 10.0);
    // 10.0, 10.0 and 10.2 round to 10.0; 12.0 and 12.1 to 12.0.
    l.chars = vec![0, 1, 2, 3, 4];
    assert_eq!(line_size(&l, &chars), Some(pt(10.0) as i64));
    // A tie goes to the larger size; out-of-range indices are ignored.
    l.chars = vec![0, 1, 99];
    assert_eq!(line_size(&l, &chars), Some(pt(12.0) as i64));
    l.chars = vec![];
    assert_eq!(line_size(&l, &chars), None);
}
