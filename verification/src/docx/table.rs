//! DOCX table grid resolution: assigning grid columns and turning vertical
//! merges (`w:vMerge`) into row spans.

use vstd::prelude::*;

use crate::ir::{BBox, Cell, Table, TableSource};

verus! {

/// Vertical-merge (`w:vMerge`) state of a cell.
#[derive(Clone, Copy, Debug, PartialEq, Eq)]
pub enum VMerge {
    /// No vertical merge: an ordinary cell.
    NoMerge,
    /// `val="restart"`: the top of a vertical span.
    Restart,
    /// `val="continue"` or a bare `<w:vMerge/>`: covered by the cell above.
    Continue,
}

/// A cell as read from XML, before vertical-merge resolution. `grid_col` is the
/// starting grid column, filled in once the whole table is known.
pub struct RawCell {
    pub text: String,
    pub col_span: u16,
    pub vmerge: VMerge,
    pub grid_col: u64,
}

/// A raw cell as the contracts see it.
pub ghost struct RawCellView {
    pub text: Seq<char>,
    pub col_span: u16,
    pub vmerge: VMerge,
    pub grid_col: int,
}

impl View for RawCell {
    type V = RawCellView;

    open spec fn view(&self) -> RawCellView {
        RawCellView {
            text: self.text@,
            col_span: self.col_span,
            vmerge: self.vmerge,
            grid_col: self.grid_col as int,
        }
    }
}

pub open spec fn raw_row_view(row: Seq<RawCell>) -> Seq<RawCellView> {
    row.map_values(|c: RawCell| c@)
}

pub open spec fn raw_rows_view(rows: Seq<Vec<RawCell>>) -> Seq<Seq<RawCellView>> {
    rows.map_values(|r: Vec<RawCell>| raw_row_view(r@))
}

proof fn lemma_raw_row_view_push(v: Seq<RawCell>, x: RawCell)
    ensures
        raw_row_view(v.push(x)) == raw_row_view(v).push(x@),
{
    assert(raw_row_view(v.push(x)) =~= raw_row_view(v).push(x@));
}

proof fn lemma_raw_rows_view_push(v: Seq<Vec<RawCell>>, x: Vec<RawCell>)
    ensures
        raw_rows_view(v.push(x)) == raw_rows_view(v).push(raw_row_view(x@)),
{
    assert(raw_rows_view(v.push(x)) =~= raw_rows_view(v).push(raw_row_view(x@)));
}

proof fn lemma_table_triples_push(v: Seq<Vec<Cell>>, x: Vec<Cell>)
    ensures
        table_triples(v.push(x)) == table_triples(v).push(x@.map_values(|c: Cell| cell_triple(c))),
{
    assert(table_triples(v.push(x)) =~= table_triples(v).push(
        x@.map_values(|c: Cell| cell_triple(c)),
    ));
}

/// The sum of the column spans of the first `i` cells of a row (saturating at
/// the largest `u64`).
pub open spec fn span_sum(row: Seq<RawCellView>, i: int) -> int
    decreases i,
{
    if i <= 0 {
        0
    } else {
        let s = span_sum(row, i - 1) + row[i - 1].col_span;
        if s > u64::MAX {
            u64::MAX as int
        } else {
            s
        }
    }
}

/// The row with each cell's grid column set to the running sum of the
/// column spans before it.
pub open spec fn assign_grid(row: Seq<RawCellView>) -> Seq<RawCellView> {
    Seq::new(row.len(), |i: int| RawCellView { grid_col: span_sum(row, i), ..row[i] })
}

/// Does the row hold a `continue` cell at grid column `g`?
pub open spec fn continues_at(row: Seq<RawCellView>, g: int) -> bool {
    exists|i: int| 0 <= i < row.len() && (#[trigger] row[i]).grid_col == g && row[i].vmerge
        is Continue
}

/// How many consecutive rows from row `k` on continue a span at grid column `g`.
pub open spec fn continued_rows(rows: Seq<Seq<RawCellView>>, k: int, g: int) -> nat
    decreases rows.len() - k,
{
    if k < 0 || k >= rows.len() {
        0
    } else if continues_at(rows[k], g) {
        1 + continued_rows(rows, k + 1, g)
    } else {
        0
    }
}

/// The row span of a `restart` cell at `(start, g)`: itself plus each following
/// row that continues it, capped at the largest `u16`.
pub open spec fn restart_span(rows: Seq<Seq<RawCellView>>, start: int, g: int) -> u16 {
    let n = 1 + continued_rows(rows, start + 1, g);
    if n > u16::MAX {
        u16::MAX
    } else {
        n as u16
    }
}

/// The cells of a row that are not covered by a span from above.
pub open spec fn kept_cells(row: Seq<RawCellView>) -> Seq<RawCellView> {
    row.filter(|c: RawCellView| !(c.vmerge is Continue))
}

/// A resolved cell as `(text, row_span, col_span)`.
pub open spec fn resolved_cell(rows: Seq<Seq<RawCellView>>, r: int, c: RawCellView) -> (
    Seq<char>,
    u16,
    u16,
) {
    (
        c.text,
        match c.vmerge {
            VMerge::Restart => restart_span(rows, r, c.grid_col),
            _ => 1,
        },
        c.col_span,
    )
}

/// The resolved rows of a table whose grid columns are assigned.
pub open spec fn resolved_rows(rows: Seq<Seq<RawCellView>>) -> Seq<Seq<(Seq<char>, u16, u16)>> {
    Seq::new(
        rows.len(),
        |r: int| kept_cells(rows[r]).map_values(|c: RawCellView| resolved_cell(rows, r, c)),
    )
}

/// A cell as `(text, row_span, col_span)`.
pub open spec fn cell_triple(c: Cell) -> (Seq<char>, u16, u16) {
    (c.text@, c.row_span, c.col_span)
}

pub open spec fn table_triples(rows: Seq<Vec<Cell>>) -> Seq<Seq<(Seq<char>, u16, u16)>> {
    rows.map_values(|r: Vec<Cell>| r@.map_values(|c: Cell| cell_triple(c)))
}

/// Every cell of the table carries the empty box (DOCX has no geometry).
pub open spec fn cells_unplaced(rows: Seq<Vec<Cell>>) -> bool {
    forall|r: int, i: int|
        0 <= r < rows.len() && 0 <= i < rows[r]@.len() ==> #[trigger] rows[r]@[i].bbox == (BBox {
            x0: 0,
            y0: 0,
            x1: 0,
            y1: 0,
        })
}

/// Does the row hold a `continue` cell at grid column `g`?
fn row_continues_at(row: &Vec<RawCell>, g: u64) -> (r: bool)
    ensures
        r == continues_at(raw_row_view(row@), g as int),
{
    let ghost rv = raw_row_view(row@);
    let mut i: usize = 0;
    while i < row.len()
        invariant
            i <= row@.len(),
            rv == raw_row_view(row@),
            forall|j: int| 0 <= j < i ==> !((#[trigger] rv[j]).grid_col == g && rv[j].vmerge is Continue),
        decreases row@.len() - i,
    {
        assert(rv[i as int] == row@[i as int]@);
        if row[i].grid_col == g && matches!(row[i].vmerge, VMerge::Continue) {
            return true;
        }
        i = i + 1;
    }
    false
}

/// Count how many rows a `restart` cell at `(start, grid_col)` covers: itself
/// plus each subsequent row that has a `continue` cell at the same grid column.
pub fn vertical_span(rows: &Vec<Vec<RawCell>>, start: usize, grid_col: u64) -> (span: u16)
    ensures
        span == restart_span(raw_rows_view(rows@), start as int, grid_col as int),
{
    let ghost rv = raw_rows_view(rows@);
    let n = rows.len();
    if start >= n {
        return 1;
    }
    let mut count: u64 = 1;
    let mut k: usize = start + 1;
    while k < rows.len() && row_continues_at(&rows[k], grid_col)
        invariant
            rv == raw_rows_view(rows@),
            start < k <= rows@.len(),
            1 <= count <= k - start,
            count + continued_rows(rv, k as int, grid_col as int) == 1 + continued_rows(
                rv,
                start + 1,
                grid_col as int,
            ),
        decreases rows@.len() - k,
    {
        assert(rv[k as int] == raw_row_view(rows@[k as int]@));
        count = count + 1;
        k = k + 1;
    }
    if k < rows.len() {
        assert(rv[k as int] == raw_row_view(rows@[k as int]@));
    }
    if count > 65535 {
        65535
    } else {
        count as u16
    }
}

/// The rows with grid columns assigned.
pub open spec fn gridded(rows: Seq<Seq<RawCellView>>) -> Seq<Seq<RawCellView>> {
    rows.map_values(|r: Seq<RawCellView>| assign_grid(r))
}

/// Copies a row, setting each cell's grid column to the running span sum.
fn assign_row(row: &Vec<RawCell>) -> (out: Vec<RawCell>)
    ensures
        raw_row_view(out@) == assign_grid(raw_row_view(row@)),
{
    let ghost rv = raw_row_view(row@);
    let mut out: Vec<RawCell> = Vec::new();
    let mut col: u64 = 0;
    let mut i: usize = 0;
    while i < row.len()
        invariant
            i <= row@.len(),
            rv == raw_row_view(row@),
            col == span_sum(rv, i as int),
            raw_row_view(out@) == assign_grid(rv).take(i as int),
        decreases row@.len() - i,
    {
        let c = &row[i];
        assert(rv[i as int] == c@);
        let cell = RawCell { text: c.text.clone(), col_span: c.col_span, vmerge: c.vmerge, grid_col: col };
        let ghost prev = out@;
        out.push(cell);
        proof {
            lemma_raw_row_view_push(prev, cell);
        }
        assert(raw_row_view(out@) =~= assign_grid(rv).take(i + 1));
        col = if col > u64::MAX - c.col_span as u64 {
            u64::MAX
        } else {
            col + c.col_span as u64
        };
        i = i + 1;
    }
    assert(assign_grid(rv).take(i as int) =~= assign_grid(rv));
    out
}

/// Resolve merges into a row-major grid: assign grid columns, drop `continue`
/// cells (HTML-style), and give each `restart` cell the row span it covers.
pub fn build_table(raw_rows: Vec<Vec<RawCell>>) -> (t: Table)
    ensures
        t.source == TableSource::Docx,
        t.bbox == (BBox { x0: 0, y0: 0, x1: 0, y1: 0 }),
        table_triples(t.rows@) == resolved_rows(gridded(raw_rows_view(raw_rows@))),
        cells_unplaced(t.rows@),
{
    let ghost g = gridded(raw_rows_view(raw_rows@));
    let mut grid: Vec<Vec<RawCell>> = Vec::new();
    let mut r: usize = 0;
    while r < raw_rows.len()
        invariant
            r <= raw_rows@.len(),
            g == gridded(raw_rows_view(raw_rows@)),
            raw_rows_view(grid@) == g.take(r as int),
        decreases raw_rows@.len() - r,
    {
        let row = assign_row(&raw_rows[r]);
        let ghost prev = grid@;
        assert(raw_rows_view(raw_rows@)[r as int] == raw_row_view(raw_rows@[r as int]@));
        grid.push(row);
        proof {
            lemma_raw_rows_view_push(prev, row);
        }
        r = r + 1;
        assert(raw_rows_view(grid@) =~= g.take(r as int));
    }
    assert(g.take(r as int) =~= g);
    let ghost target = resolved_rows(g);
    let mut rows: Vec<Vec<Cell>> = Vec::new();
    let mut r: usize = 0;
    while r < grid.len()
        invariant
            r <= grid@.len(),
            g == raw_rows_view(grid@),
            target == resolved_rows(g),
            table_triples(rows@) == target.take(r as int),
            cells_unplaced(rows@),
        decreases grid@.len() - r,
    {
        let row = &grid[r];
        let ghost rv = g[r as int];
        assert(rv == raw_row_view(row@));
        let ghost f = |c: RawCellView| resolved_cell(g, r as int, c);
        let ghost keep = |c: RawCellView| !(c.vmerge is Continue);
        let mut out_row: Vec<Cell> = Vec::new();
        let mut i: usize = 0;
        assert(rv.take(0).filter(keep) =~= Seq::<RawCellView>::empty()) by {
            reveal(Seq::filter);
        }
        while i < row.len()
            invariant
                i <= row@.len(),
                g == raw_rows_view(grid@),
                r < grid@.len(),
                rv == g[r as int],
                rv == raw_row_view(row@),
                f == (|c: RawCellView| resolved_cell(g, r as int, c)),
                keep == (|c: RawCellView| !(c.vmerge is Continue)),
                out_row@.map_values(|c: Cell| cell_triple(c)) == rv.take(i as int).filter(keep).map_values(f),
                forall|j: int| 0 <= j < out_row@.len() ==> (#[trigger] out_row@[j]).bbox == (BBox {
                    x0: 0,
                    y0: 0,
                    x1: 0,
                    y1: 0,
                }),
            decreases row@.len() - i,
        {
            let c = &row[i];
            assert(rv[i as int] == c@);
            assert(rv.take(i + 1) =~= rv.take(i as int).push(rv[i as int]));
            proof {
                rv.take(i as int).lemma_filter_push(rv[i as int], keep);
            }
            let ghost prev = out_row@;
            match c.vmerge {
                VMerge::Continue => {},
                VMerge::Restart => {
                    let span = vertical_span(&grid, r, c.grid_col);
                    let cell = Cell { text: c.text.clone(), bbox: BBox::zero(), row_span: span, col_span: c.col_span };
                    out_row.push(cell);
                    assert(out_row@.map_values(|c: Cell| cell_triple(c)) =~= prev.map_values(|c: Cell| cell_triple(c)).push(f(rv[i as int])));
                },
                VMerge::NoMerge => {
                    let cell = Cell { text: c.text.clone(), bbox: BBox::zero(), row_span: 1, col_span: c.col_span };
                    out_row.push(cell);
                    assert(out_row@.map_values(|c: Cell| cell_triple(c)) =~= prev.map_values(|c: Cell| cell_triple(c)).push(f(rv[i as int])));
                },
            }
            i = i + 1;
        }
        assert(rv.take(i as int) =~= rv);
        let ghost prev_rows = rows@;
        rows.push(out_row);
        proof {
            lemma_table_triples_push(prev_rows, out_row);
        }
        r = r + 1;
        assert(table_triples(rows@) =~= target.take(r as int));
    }
    assert(target.take(r as int) =~= target);
    Table { bbox: BBox::zero(), rows, source: TableSource::Docx }
}


/// The rows counted by `continued_rows` are exactly the run of rows from `k`
/// on that continue a span at grid column `g`: each of them continues it,
/// and the row after the run (if any) does not.
pub proof fn lemma_continued_rows_are_the_run(rows: Seq<Seq<RawCellView>>, k: int, g: int)
    requires
        0 <= k,
    ensures
        forall|d: int| 0 <= d < continued_rows(rows, k, g) ==> continues_at(#[trigger] rows[k + d], g),
        k + continued_rows(rows, k, g) <= rows.len() || k >= rows.len(),
        k + continued_rows(rows, k, g) < rows.len() ==> !continues_at(rows[k + continued_rows(rows, k, g)], g),
    decreases rows.len() - k,
{
    if k < rows.len() && continues_at(rows[k], g) {
        lemma_continued_rows_are_the_run(rows, k + 1, g);
        assert forall|d: int| 0 <= d < continued_rows(rows, k, g) implies continues_at(#[trigger] rows[k + d], g) by {
            if d > 0 {
                assert(rows[k + d] == rows[(k + 1) + (d - 1)]);
            }
        }
    }
}

/// A vertically merged cell spans itself and every directly following row
/// that continues it at its grid column, and no further (the count capped at
/// the largest `u16`).
pub proof fn lemma_restart_span_covers_continuations(rows: Seq<Seq<RawCellView>>, start: int, g: int)
    requires
        0 <= start < rows.len(),
    ensures
        restart_span(rows, start, g) >= 1,
        restart_span(rows, start, g) < u16::MAX ==> {
            let n = restart_span(rows, start, g) as int;
            &&& forall|d: int| 1 <= d < n ==> continues_at(#[trigger] rows[start + d], g)
            &&& start + n < rows.len() ==> !continues_at(rows[start + n], g)
        },
{
    lemma_continued_rows_are_the_run(rows, start + 1, g);
    let c = continued_rows(rows, start + 1, g);
    if restart_span(rows, start, g) < u16::MAX {
        assert forall|d: int| 1 <= d < restart_span(rows, start, g) implies continues_at(#[trigger] rows[start + d], g) by {
            assert(rows[start + d] == rows[(start + 1) + (d - 1)]);
        }
    }
}

} // verus!
