//! Markdown rendering of the IR.
//!
//! Walks pages and their reading-order blocks, emitting paragraphs (with `#`
//! heading levels) and GitHub-flavoured tables. Purely structural input in,
//! deterministic Markdown out.

use vstd::prelude::*;
use vstd::string::StringExecFns;

use crate::ir::{Block, Cell, Document, Page, Paragraph, Table};
use crate::text::{join, join_strings, lemma_strings_view_push, push_char, push_chars, strings_view};

verus! {

/// `n` copies of `c`.
pub open spec fn repeat_char(c: char, n: nat) -> Seq<char> {
    Seq::new(n, |i: int| c)
}

/// A heading paragraph is its text behind `n` hashes and a space; any other
/// paragraph (including level 0) is its text verbatim.
pub open spec fn paragraph_md_spec(p: Paragraph) -> Seq<char> {
    match p.heading_level {
        Some(n) => if n > 0 {
            repeat_char('#', n as nat) + seq![' '] + p.text@
        } else {
            p.text@
        },
        None => p.text@,
    }
}

/// Cell text made safe for a table row: `|` becomes `\|` and a newline a space.
pub open spec fn escape_cell_spec(t: Seq<char>) -> Seq<char>
    decreases t.len(),
{
    if t.len() == 0 {
        Seq::empty()
    } else {
        escape_cell_spec(t.drop_last()) + if t.last() == '|' {
            seq!['\\', '|']
        } else if t.last() == '\n' {
            seq![' ']
        } else {
            seq![t.last()]
        }
    }
}

/// How many grid columns a cell fills (a span of 0 counts as 1).
pub open spec fn effective_span(c: Cell) -> nat {
    if c.col_span == 0 {
        1
    } else {
        c.col_span as nat
    }
}

/// A row with each cell's escaped text repeated once per column it spans.
pub open spec fn expand_row(row: Seq<Cell>) -> Seq<Seq<char>>
    decreases row.len(),
{
    if row.len() == 0 {
        Seq::empty()
    } else {
        expand_row(row.drop_last()) + Seq::new(
            effective_span(row.last()),
            |i: int| escape_cell_spec(row.last().text@),
        )
    }
}

pub open spec fn expand_rows(rows: Seq<Vec<Cell>>) -> Seq<Seq<Seq<char>>> {
    rows.map_values(|r: Vec<Cell>| expand_row(r@))
}

/// The length of the longest row.
pub open spec fn max_width(rows: Seq<Seq<Seq<char>>>) -> nat
    decreases rows.len(),
{
    if rows.len() == 0 {
        0
    } else {
        let w = max_width(rows.drop_last());
        if rows.last().len() > w {
            rows.last().len()
        } else {
            w
        }
    }
}

/// A row filled up with empty cells to `width` columns.
pub open spec fn pad_row(row: Seq<Seq<char>>, width: nat) -> Seq<Seq<char>> {
    row + Seq::new((width - row.len()) as nat, |i: int| Seq::<char>::empty())
}

/// `| a | b | c |`.
pub open spec fn row_line(cells: Seq<Seq<char>>) -> Seq<char> {
    seq!['|', ' '] + join(cells, seq![' ', '|', ' ']) + seq![' ', '|']
}

/// The header separator for `width` columns: `| --- | --- |`.
pub open spec fn separator_line(width: nat) -> Seq<char> {
    row_line(Seq::new(width, |i: int| seq!['-', '-', '-']))
}

/// The lines of a table: the first row, the separator, then the other rows,
/// every row padded to the widest one.
pub open spec fn table_lines(rows: Seq<Seq<Seq<char>>>) -> Seq<Seq<char>> {
    let w = max_width(rows);
    seq![row_line(pad_row(rows[0], w)), separator_line(w)] + rows.skip(1).map_values(
        |r: Seq<Seq<char>>| row_line(pad_row(r, w)),
    )
}

/// A table as GitHub Markdown (first row = header), lines joined by newlines;
/// a table with no cells renders as nothing.
pub open spec fn table_md_spec(t: Table) -> Seq<char> {
    let rows = expand_rows(t.rows@);
    if max_width(rows) == 0 {
        Seq::empty()
    } else {
        join(table_lines(rows), seq!['\n'])
    }
}

/// The Markdown of a block, `None` for an image (which has no text body).
pub open spec fn block_md_spec(b: Block) -> Option<Seq<char>> {
    match b {
        Block::Paragraph(p) => Some(paragraph_md_spec(p)),
        Block::Table(t) => Some(table_md_spec(t)),
        Block::Image(_) => None,
    }
}

/// The Markdown of every text-bearing block of `blocks`, in order.
pub open spec fn blocks_md(blocks: Seq<Block>) -> Seq<Seq<char>>
    decreases blocks.len(),
{
    if blocks.len() == 0 {
        Seq::empty()
    } else {
        blocks_md(blocks.drop_last()) + match block_md_spec(blocks.last()) {
            Some(m) => seq![m],
            None => Seq::empty(),
        }
    }
}

/// The Markdown of every text-bearing block of every page, in order.
pub open spec fn pages_md(pages: Seq<Page>) -> Seq<Seq<char>>
    decreases pages.len(),
{
    if pages.len() == 0 {
        Seq::empty()
    } else {
        pages_md(pages.drop_last()) + blocks_md(pages.last().blocks@)
    }
}

/// The Markdown of a document: one blank line between every two blocks
/// (and so between pages too).
pub open spec fn to_markdown_spec(doc: Document) -> Seq<char> {
    join(pages_md(doc.pages@), seq!['\n', '\n'])
}

/// Render `doc` to GitHub-flavoured Markdown, pages and blocks in order.
pub fn to_markdown(doc: &Document) -> (md: String)
    ensures
        md@ == to_markdown_spec(*doc),
{
    let mut blocks: Vec<String> = Vec::new();
    let mut p: usize = 0;
    while p < doc.pages.len()
        invariant
            p <= doc.pages@.len(),
            strings_view(blocks@) == pages_md(doc.pages@.take(p as int)),
        decreases doc.pages@.len() - p,
    {
        let page = &doc.pages[p];
        let mut b: usize = 0;
        let ghost start = strings_view(blocks@);
        assert(page.blocks@.take(0) =~= Seq::<Block>::empty());
        assert(start + blocks_md(page.blocks@.take(0)) =~= start);
        while b < page.blocks.len()
            invariant
                b <= page.blocks@.len(),
                strings_view(blocks@) == start + blocks_md(page.blocks@.take(b as int)),
            decreases page.blocks@.len() - b,
        {
            let ghost prev = strings_view(blocks@);
            assert(page.blocks@.take(b + 1).drop_last() =~= page.blocks@.take(b as int));
            assert(page.blocks@.take(b + 1).last() == page.blocks@[b as int]);
            match &page.blocks[b] {
                Block::Paragraph(para) => {
                    let m = paragraph_md(para);
                    blocks.push(m);
                    assert(strings_view(blocks@) =~= prev.push(m@));
                },
                Block::Table(t) => {
                    let m = table_md(t);
                    blocks.push(m);
                    assert(strings_view(blocks@) =~= prev.push(m@));
                },
                Block::Image(_) => {
                    assert(strings_view(blocks@) =~= prev);
                },
            }
            b = b + 1;
        }
        assert(page.blocks@.take(b as int) =~= page.blocks@);
        assert(doc.pages@.take(p + 1).drop_last() =~= doc.pages@.take(p as int));
        assert(doc.pages@.take(p + 1).last() == doc.pages@[p as int]);
        p = p + 1;
    }
    assert(doc.pages@.take(p as int) =~= doc.pages@);
    let blank: [char; 2] = ['\n', '\n'];
    assert(blank@ =~= seq!['\n', '\n']);
    join_strings(&blocks, &blank)
}

/// A heading paragraph becomes `#`-prefixed; a normal one is its text verbatim.
pub fn paragraph_md(p: &Paragraph) -> (md: String)
    ensures
        md@ == paragraph_md_spec(*p),
{
    match p.heading_level {
        Some(n) => {
            if n > 0 {
                let mut s = String::new();
                let mut k: u8 = 0;
                while k < n
                    invariant
                        k <= n,
                        s@ == repeat_char('#', k as nat),
                    decreases n - k,
                {
                    push_char(&mut s, '#');
                    k = k + 1;
                    assert(s@ =~= repeat_char('#', k as nat));
                }
                push_char(&mut s, ' ');
                s.append(p.text.as_str());
                s
            } else {
                p.text.clone()
            }
        },
        None => p.text.clone(),
    }
}

/// Escape characters that would break a Markdown table cell.
pub fn escape_cell(text: &str) -> (out: String)
    ensures
        out@ == escape_cell_spec(text@),
{
    let cs = crate::text::chars_of(text);
    let mut out = String::new();
    let mut i: usize = 0;
    while i < cs.len()
        invariant
            cs@ == text@,
            i <= cs.len(),
            out@ == escape_cell_spec(cs@.take(i as int)),
        decreases cs.len() - i,
    {
        assert(cs@.take(i + 1).drop_last() =~= cs@.take(i as int));
        let c = cs[i];
        if c == '|' {
            push_char(&mut out, '\\');
            push_char(&mut out, '|');
        } else if c == '\n' {
            push_char(&mut out, ' ');
        } else {
            push_char(&mut out, c);
        }
        i = i + 1;
        assert(out@ =~= escape_cell_spec(cs@.take(i as int)));
    }
    assert(cs@.take(i as int) =~= cs@);
    out
}

/// A row with each cell repeated once per column it spans.
fn expand(row: &Vec<Cell>) -> (cols: Vec<String>)
    ensures
        strings_view(cols@) == expand_row(row@),
{
    let mut cols: Vec<String> = Vec::new();
    let mut i: usize = 0;
    while i < row.len()
        invariant
            i <= row@.len(),
            strings_view(cols@) == expand_row(row@.take(i as int)),
        decreases row@.len() - i,
    {
        let cell = &row[i];
        let span: u16 = if cell.col_span == 0 {
            1
        } else {
            cell.col_span
        };
        let text = escape_cell(cell.text.as_str());
        let ghost start = strings_view(cols@);
        let mut k: u16 = 0;
        while k < span
            invariant
                k <= span,
                text@ == escape_cell_spec(cell.text@),
                strings_view(cols@) == start + Seq::new(
                    k as nat,
                    |j: int| escape_cell_spec(cell.text@),
                ),
            decreases span - k,
        {
            let ghost prev = cols@;
            let t = text.clone();
            cols.push(t);
            proof {
                lemma_strings_view_push(prev, t);
            }
            k = k + 1;
            assert(strings_view(cols@) =~= start + Seq::new(
                k as nat,
                |j: int| escape_cell_spec(cell.text@),
            ));
        }
        assert(row@.take(i + 1).drop_last() =~= row@.take(i as int));
        assert(row@.take(i + 1).last() == row@[i as int]);
        i = i + 1;
    }
    assert(row@.take(i as int) =~= row@);
    cols
}

/// `| a | b |` from the cell texts.
fn render_row(cells: &Vec<String>) -> (line: String)
    ensures
        line@ == row_line(strings_view(cells@)),
{
    let open: [char; 2] = ['|', ' '];
    let sep: [char; 3] = [' ', '|', ' '];
    let close: [char; 2] = [' ', '|'];
    assert(open@ =~= seq!['|', ' ']);
    assert(sep@ =~= seq![' ', '|', ' ']);
    assert(close@ =~= seq![' ', '|']);
    let mut line = String::new();
    push_chars(&mut line, &open);
    let inner = join_strings(cells, &sep);
    line.append(inner.as_str());
    push_chars(&mut line, &close);
    line
}

/// The row's cells followed by empty cells up to `width` columns, rendered.
fn padded_row_line(row: &Vec<String>, width: usize) -> (line: String)
    requires
        row@.len() <= width,
    ensures
        line@ == row_line(pad_row(strings_view(row@), width as nat)),
{
    let mut cells: Vec<String> = Vec::new();
    let mut k: usize = 0;
    while k < row.len()
        invariant
            k <= row@.len(),
            strings_view(cells@) == strings_view(row@).take(k as int),
        decreases row@.len() - k,
    {
        let ghost prev = cells@;
        let t = row[k].clone();
        cells.push(t);
        proof {
            lemma_strings_view_push(prev, t);
        }
        k = k + 1;
        assert(strings_view(cells@) =~= strings_view(row@).take(k as int));
    }
    assert(strings_view(row@).take(k as int) =~= strings_view(row@));
    let ghost base = strings_view(cells@);
    while k < width
        invariant
            row@.len() <= k <= width,
            strings_view(cells@) == base + Seq::new(
                (k - row@.len()) as nat,
                |i: int| Seq::<char>::empty(),
            ),
        decreases width - k,
    {
        let ghost prev = cells@;
        let t = String::new();
        cells.push(t);
        proof {
            lemma_strings_view_push(prev, t);
        }
        k = k + 1;
        assert(strings_view(cells@) =~= base + Seq::new(
            (k - row@.len()) as nat,
            |i: int| Seq::<char>::empty(),
        ));
    }
    render_row(&cells)
}

/// `| --- | --- |` for `width` columns.
fn separator(width: usize) -> (line: String)
    ensures
        line@ == separator_line(width as nat),
{
    let dash: [char; 3] = ['-', '-', '-'];
    assert(dash@ =~= seq!['-', '-', '-']);
    let mut cells: Vec<String> = Vec::new();
    let mut k: usize = 0;
    while k < width
        invariant
            k <= width,
            dash@ == seq!['-', '-', '-'],
            strings_view(cells@) == Seq::new(k as nat, |i: int| seq!['-', '-', '-']),
        decreases width - k,
    {
        let ghost prev = cells@;
        let t = crate::text::string_from_chars(&dash);
        cells.push(t);
        proof {
            lemma_strings_view_push(prev, t);
        }
        k = k + 1;
        assert(strings_view(cells@) =~= Seq::new(k as nat, |i: int| seq!['-', '-', '-']));
    }
    render_row(&cells)
}

/// The cell texts of each row, as the contracts see them.
pub open spec fn rows_view(v: Seq<Vec<String>>) -> Seq<Seq<Seq<char>>> {
    v.map_values(|r: Vec<String>| strings_view(r@))
}

/// Render a table as a GitHub Markdown table (first row = header).
pub fn table_md(table: &Table) -> (md: String)
    ensures
        md@ == table_md_spec(*table),
{
    let ghost rows = expand_rows(table.rows@);
    let mut expanded: Vec<Vec<String>> = Vec::new();
    let mut width: usize = 0;
    let mut r: usize = 0;
    while r < table.rows.len()
        invariant
            rows == expand_rows(table.rows@),
            r <= table.rows@.len(),
            rows_view(expanded@) == rows.take(r as int),
            width == max_width(rows.take(r as int)),
        decreases table.rows@.len() - r,
    {
        let e = expand(&table.rows[r]);
        assert(rows.take(r + 1).drop_last() =~= rows.take(r as int));
        assert(rows.take(r + 1).last() == strings_view(e@));
        if e.len() > width {
            width = e.len();
        }
        expanded.push(e);
        r = r + 1;
        assert(rows_view(expanded@) =~= rows.take(r as int));
    }
    assert(rows.take(r as int) =~= rows);
    if width == 0 {
        return String::new();
    }
    proof {
        lemma_max_width_bounds(rows);
        assert(rows[0] == strings_view(expanded@[0]@));
    }
    let mut lines: Vec<String> = Vec::new();
    let first = padded_row_line(&expanded[0], width);
    lines.push(first);
    lines.push(separator(width));
    let mut i: usize = 1;
    let ghost f = |row: Seq<Seq<char>>| row_line(pad_row(row, width as nat));
    assert(strings_view(lines@) =~= seq![f(rows[0]), separator_line(width as nat)]
        + rows.subrange(1, 1).map_values(f));
    while i < expanded.len()
        invariant
            1 <= i <= expanded@.len(),
            rows == rows_view(expanded@),
            rows.len() == expanded@.len(),
            width == max_width(rows),
            forall|k: int| 0 <= k < rows.len() ==> (#[trigger] rows[k]).len() <= width,
            f == (|row: Seq<Seq<char>>| row_line(pad_row(row, width as nat))),
            strings_view(lines@) == seq![f(rows[0]), separator_line(width as nat)]
                + rows.subrange(1, i as int).map_values(f),
        decreases expanded@.len() - i,
    {
        assert(rows[i as int] == strings_view(expanded@[i as int]@));
        let line = padded_row_line(&expanded[i], width);
        let ghost prev = strings_view(lines@);
        lines.push(line);
        i = i + 1;
        assert(rows.subrange(1, i as int).map_values(f) =~= rows.subrange(1, i - 1).map_values(
            f,
        ).push(f(rows[i - 1])));
        assert(strings_view(lines@) =~= prev.push(line@));
    }
    assert(rows.subrange(1, i as int) =~= rows.skip(1));
    assert(strings_view(lines@) =~= table_lines(rows));
    let nl: [char; 1] = ['\n'];
    assert(nl@ =~= seq!['\n']);
    join_strings(&lines, &nl)
}

proof fn lemma_max_width_bounds(rows: Seq<Seq<Seq<char>>>)
    ensures
        forall|k: int| 0 <= k < rows.len() ==> (#[trigger] rows[k]).len() <= max_width(rows),
        max_width(rows) > 0 ==> rows.len() > 0,
    decreases rows.len(),
{
    if rows.len() > 0 {
        lemma_max_width_bounds(rows.drop_last());
        assert forall|k: int| 0 <= k < rows.len() implies (#[trigger] rows[k]).len() <= max_width(
            rows,
        ) by {
            if k < rows.len() - 1 {
                assert(rows[k] == rows.drop_last()[k]);
            }
        }
    }
}


/// A rendered table stays a rectangular grid: one line per row plus the
/// separator after the header, every line holding exactly as many cells as
/// the widest row, each row's cells first and empty cells after them.
pub proof fn lemma_table_grid_is_rectangular(t: Table)
    requires
        max_width(expand_rows(t.rows@)) > 0,
    ensures
        ({
            let rows = expand_rows(t.rows@);
            let w = max_width(rows);
            let lines = table_lines(rows);
            &&& table_md_spec(t) == join(lines, seq!['\n'])
            &&& lines.len() == rows.len() + 1
            &&& lines[0] == row_line(pad_row(rows[0], w))
            &&& lines[1] == separator_line(w)
            &&& forall|i: int| 1 <= i < rows.len() ==> lines[i + 1] == row_line(pad_row(#[trigger] rows[i], w))
            &&& forall|i: int| 0 <= i < rows.len() ==> (#[trigger] pad_row(rows[i], w)).len() == w
                && pad_row(rows[i], w).take(rows[i].len() as int) == rows[i]
                && forall|k: int| rows[i].len() <= k < w ==> pad_row(rows[i], w)[k] == Seq::<char>::empty()
        }),
{
    let rows = expand_rows(t.rows@);
    let w = max_width(rows);
    lemma_max_width_bounds(rows);
    let lines = table_lines(rows);
    assert forall|i: int| 1 <= i < rows.len() implies lines[i + 1] == row_line(pad_row(#[trigger] rows[i], w)) by {
        assert(rows.skip(1)[i - 1] == rows[i]);
    }
    assert forall|i: int| 0 <= i < rows.len() implies (#[trigger] pad_row(rows[i], w)).len() == w
        && pad_row(rows[i], w).take(rows[i].len() as int) == rows[i]
        && forall|k: int| rows[i].len() <= k < w ==> pad_row(rows[i], w)[k] == Seq::<char>::empty() by {
        assert(rows[i].len() <= w);
        assert(pad_row(rows[i], w).take(rows[i].len() as int) =~= rows[i]);
    }
}

} // verus!
