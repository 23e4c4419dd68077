use pdfmuse_core::ir::{BBox, Block, Paragraph};
use pdfmuse_core::layout::columns::reading_order;

fn pt(v: f32) -> i32 {
    (v * 100.0).round() as i32
}

fn para(label: &str, x0: f32, x1: f32, y0: f32) -> Block {
    Block::Paragraph(Paragraph {
        bbox: BBox { x0: pt(x0), y0: pt(y0), x1: pt(x1), y1: pt(y0 + 10.0) },
        text: label.into(),
        heading_level: None,
        role: None,
    })
}

fn text(b: &Block) -> &str {
    match b {
        Block::Paragraph(p) => &p.text,
        _ => "",
    }
}

#[test]
fn two_columns_ordered_left_then_right() {
    // Left column x in [0,200], right column x in [300,500] on a 500-wide page.
    let blocks = vec![
        para("R-top", 300.0, 500.0, 0.0),
        para("L-bottom", 0.0, 200.0, 50.0),
        para("L-top", 0.0, 200.0, 0.0),
        para("R-bottom", 300.0, 500.0, 50.0),
    ];
    let ordered = reading_order(blocks, pt(500.0));
    let got: Vec<&str> = ordered.iter().map(text).collect();
    assert_eq!(got, vec!["L-top", "L-bottom", "R-top", "R-bottom"]);
}

#[test]
fn full_width_block_stays_single_column() {
    // A full-width heading must not trigger a 2-column split.
    let blocks = vec![
        para("body", 0.0, 200.0, 50.0),
        para("heading", 0.0, 500.0, 0.0), // spans the midline
    ];
    let ordered = reading_order(blocks, pt(500.0));
    let got: Vec<&str> = ordered.iter().map(text).collect();
    assert_eq!(got, vec!["heading", "body"]); // pure top-to-bottom
}

#[test]
fn single_block_unchanged() {
    let blocks = vec![para("only", 0.0, 200.0, 0.0)];
    assert_eq!(reading_order(blocks, pt(500.0)).len(), 1);
}

#[test]
fn one_sided_blocks_sort_top_to_bottom_stably() {
    // All blocks left of the midline: single-column order; equal tops keep
    // their input order.
    let blocks = vec![
        para("second", 0.0, 200.0, 50.0),
        para("first-a", 0.0, 200.0, 0.0),
        para("first-b", 10.0, 190.0, 0.0),
    ];
    let ordered = reading_order(blocks, pt(500.0));
    let got: Vec<&str> = ordered.iter().map(text).collect();
    assert_eq!(got, vec!["first-a", "first-b", "second"]);
}

#[test]
fn zero_width_page_orders_top_to_bottom() {
    let blocks = vec![para("R", 300.0, 500.0, 0.0), para("L", 0.0, 200.0, 50.0), para("L0", 0.0, 200.0, 0.0)];
    let ordered = reading_order(blocks, 0);
    let got: Vec<&str> = ordered.iter().map(text).collect();
    assert_eq!(got, vec!["R", "L0", "L"]);
}
