use pdfmuse_core::ir::{BBox, Char, FontRef, Rect, Rule, TableSource};
use pdfmuse_core::layout::tables::detect_ruled;

fn pt(v: f32) -> i32 {
    (v * 100.0).round() as i32
}

fn ch(text: &str, cx: f32, cy: f32) -> Char {
    Char {
        text: text.into(),
        bbox: BBox { x0: pt(cx - 3.0), y0: pt(cy - 5.0), x1: pt(cx + 3.0), y1: pt(cy + 5.0) },
        font: FontRef { name: "F".into() },
        size: pt(10.0),
        color: None,
    }
}
fn vrule(x: f32, y0: f32, y1: f32) -> Rule {
    Rule { x0: pt(x), y0: pt(y0), x1: pt(x), y1: pt(y1), width: pt(1.0) }
}
fn hrule(y: f32, x0: f32, x1: f32) -> Rule {
    Rule { x0: pt(x0), y0: pt(y), x1: pt(x1), y1: pt(y), width: pt(1.0) }
}

fn grid_rules() -> Vec<Rule> {
    vec![
        vrule(0.0, 0.0, 40.0), vrule(50.0, 0.0, 40.0), vrule(100.0, 0.0, 40.0),
        hrule(0.0, 0.0, 100.0), hrule(20.0, 0.0, 100.0), hrule(40.0, 0.0, 100.0),
    ]
}

fn abcd() -> Vec<Char> {
    vec![ch("A", 25.0, 10.0), ch("B", 75.0, 10.0), ch("C", 25.0, 30.0), ch("D", 75.0, 30.0)]
}

#[test]
fn reconstructs_2x2_grid() {
    // Grid lines at x in {0,50,100}, y in {0,20,40}; one char centered in each cell.
    let tables = detect_ruled(&abcd(), &vec![], &grid_rules());
    assert_eq!(tables.len(), 1);
    let t = &tables[0];
    assert_eq!(t.source, TableSource::Ruled);
    assert_eq!(t.rows.len(), 2);
    let texts: Vec<Vec<&str>> = t.rows.iter().map(|r| r.iter().map(|c| c.text.as_str()).collect()).collect();
    assert_eq!(texts, vec![vec!["A", "B"], vec!["C", "D"]]);
    assert!(t.rows.iter().flatten().all(|c| c.row_span == 1 && c.col_span == 1));
}

#[test]
fn merges_cells_on_missing_interior_border() {
    // Top row has no divider at x=50 (vertical there only spans the bottom row),
    // so the top row is one merged cell spanning both columns.
    let rules = vec![
        vrule(0.0, 0.0, 40.0), vrule(50.0, 20.0, 40.0), vrule(100.0, 0.0, 40.0),
        hrule(0.0, 0.0, 100.0), hrule(20.0, 0.0, 100.0), hrule(40.0, 0.0, 100.0),
    ];
    let t = &detect_ruled(&abcd(), &vec![], &rules)[0];
    assert_eq!(t.rows[0].len(), 1);
    assert_eq!(t.rows[0][0].col_span, 2);
    assert_eq!(t.rows[0][0].text, "A B");
    assert_eq!(t.rows[1].len(), 2);
}

#[test]
fn no_grid_without_interior_lines() {
    // A lone rectangle (just an outer box) is not a table.
    let rects = vec![Rect { bbox: BBox { x0: pt(0.0), y0: pt(0.0), x1: pt(100.0), y1: pt(40.0) } }];
    assert!(detect_ruled(&vec![], &rects, &vec![]).is_empty());
}

#[test]
fn missing_horizontal_border_spans_rows() {
    // The middle horizontal line covers only the right column: the left cell
    // spans both rows and the covered position is omitted.
    let rules = vec![
        vrule(0.0, 0.0, 40.0), vrule(50.0, 0.0, 40.0), vrule(100.0, 0.0, 40.0),
        hrule(0.0, 0.0, 100.0), hrule(20.0, 50.0, 100.0), hrule(40.0, 0.0, 100.0),
    ];
    let t = &detect_ruled(&abcd(), &vec![], &rules)[0];
    assert_eq!(t.rows.len(), 2);
    assert_eq!(t.rows[0].len(), 2);
    assert_eq!(t.rows[0][0].row_span, 2);
    assert_eq!(t.rows[0][0].text, "AC");
    assert_eq!(t.rows[1].len(), 1);
    assert_eq!(t.rows[1][0].text, "D");
}

#[test]
fn table_boxes_come_from_the_grid() {
    let t = &detect_ruled(&abcd(), &vec![], &grid_rules())[0];
    assert_eq!(t.bbox, BBox { x0: 0, y0: 0, x1: pt(100.0), y1: pt(40.0) });
    assert_eq!(t.rows[1][1].bbox, BBox { x0: pt(50.0), y0: pt(20.0), x1: pt(100.0), y1: pt(40.0) });
}

#[test]
fn rectangles_give_grid_lines_too() {
    // Two side-by-side rectangles: x lines at 0, 50, 100 and y lines at 0, 20.
    let rects = vec![
        Rect { bbox: BBox { x0: 0, y0: 0, x1: pt(50.0), y1: pt(20.0) } },
        Rect { bbox: BBox { x0: pt(50.0), y0: 0, x1: pt(100.0), y1: pt(20.0) } },
    ];
    let tables = detect_ruled(&abcd(), &rects, &vec![]);
    assert_eq!(tables.len(), 1);
    let texts: Vec<&str> = tables[0].rows[0].iter().map(|c| c.text.as_str()).collect();
    assert_eq!(texts, vec!["A", "B"]);
}

#[test]
fn close_lines_cluster_and_slanted_rules_are_ignored() {
    // A second vertical line 1pt from x=50 joins it; a diagonal adds nothing.
    let mut rules = grid_rules();
    rules.push(vrule(51.0, 0.0, 40.0));
    rules.push(Rule { x0: 0, y0: 0, x1: pt(100.0), y1: pt(40.0), width: 100 });
    let t = &detect_ruled(&abcd(), &vec![], &rules)[0];
    assert_eq!(t.rows.len(), 2);
    assert_eq!(t.rows[0].len(), 2);
}
