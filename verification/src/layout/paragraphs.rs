//! Line → paragraph grouping.
//!
//! Consecutive lines (already ordered top-to-bottom) are grouped into
//! paragraphs; a vertical gap noticeably larger than the line height starts a
//! new paragraph, and so does a change of dominant font size (so a heading is
//! never glued to the body text beneath it). Fully geometric and
//! deterministic; lengths are in the IR's unit (hundredths of a point).

use vstd::prelude::*;

use crate::ir::{BBox, Block, Char, Paragraph, TextLine};
use crate::text::{join, join_strings, lemma_strings_view_push, strings_view};

verus! {

/// A line's height for the gap rule: its box height, at least one point.
pub open spec fn line_height(l: TextLine) -> int {
    let h = l.bbox.y1 - l.bbox.y0;
    if h > 100 {
        h
    } else {
        100
    }
}

/// The gap rule: the vertical gap from `prev` to `next` exceeds 0.6 × the
/// height of `prev`.
pub open spec fn gap_break(prev: TextLine, next: TextLine) -> bool {
    5 * (next.bbox.y0 - prev.bbox.y1) > 3 * line_height(prev)
}

/// A font size rounded to the nearest half point (half away from zero),
/// counted in half points.
pub open spec fn size_bucket(size: int) -> int {
    if size >= 0 {
        (size + 25) / 50
    } else {
        -((-size + 25) / 50)
    }
}

/// The size buckets of the line's characters (indices past `chars` ignored).
pub open spec fn line_buckets(idx: Seq<u32>, chars: Seq<Char>) -> Seq<int>
    decreases idx.len(),
{
    if idx.len() == 0 {
        Seq::empty()
    } else {
        let rest = line_buckets(idx.drop_last(), chars);
        if idx.last() < chars.len() {
            rest.push(size_bucket(chars[idx.last() as int].size as int))
        } else {
            rest
        }
    }
}

/// How often `b` occurs in `s`.
pub open spec fn count_of(s: Seq<int>, b: int) -> nat
    decreases s.len(),
{
    if s.len() == 0 {
        0
    } else {
        count_of(s.drop_last(), b) + if s.last() == b {
            1nat
        } else {
            0nat
        }
    }
}

/// `k` is the most frequent value of `s`, the largest one among equally
/// frequent values.
pub open spec fn is_mode(s: Seq<int>, k: int) -> bool {
    &&& s.contains(k)
    &&& forall|b: int|
        s.contains(b) ==> (count_of(s, b) < count_of(s, k) || (count_of(s, b) == count_of(s, k)
            && b <= k))
}

/// A line's dominant char size in the IR's unit (the mode over half-point
/// buckets), or `None` if the line carries no char indices.
pub open spec fn line_size_spec(line: TextLine, chars: Seq<Char>) -> Option<int> {
    let s = line_buckets(line.chars@, chars);
    if s.len() == 0 {
        None
    } else {
        Some((choose|k: int| is_mode(s, k)) * 50)
    }
}

/// The size rule: both lines have a dominant size, the smaller is positive,
/// and the larger exceeds it by more than 15%.
pub open spec fn size_break_spec(a: TextLine, b: TextLine, chars: Seq<Char>) -> bool {
    match (line_size_spec(a, chars), line_size_spec(b, chars)) {
        (Some(sa), Some(sb)) => {
            let lo = if sa < sb {
                sa
            } else {
                sb
            };
            let hi = if sa < sb {
                sb
            } else {
                sa
            };
            lo > 0 && hi * 100 > lo * 115
        },
        _ => false,
    }
}

/// The size rule does not depend on which line comes first: it breaks exactly
/// when both lines have a dominant size and either size exceeds the other,
/// positive one by more than 15%, whichever line is above.
pub proof fn lemma_size_break_symmetric(a: TextLine, b: TextLine, chars: Seq<Char>)
    ensures
        size_break_spec(a, b, chars) == size_break_spec(b, a, chars),
        size_break_spec(a, b, chars) <==> (line_size_spec(a, chars) matches Some(sa)
            && line_size_spec(b, chars) matches Some(sb) && ((0 < sa && sb * 100 > sa * 115) || (0
            < sb && sa * 100 > sb * 115))),
{
}

/// Does a new paragraph start at line `i` (`i >= 1`)?
pub open spec fn para_break(lines: Seq<TextLine>, chars: Seq<Char>, i: int) -> bool {
    gap_break(lines[i - 1], lines[i]) || size_break_spec(lines[i - 1], lines[i], chars)
}

/// The first `n` lines split into paragraphs at each break.
pub open spec fn groups(lines: Seq<TextLine>, chars: Seq<Char>, n: int) -> Seq<Seq<TextLine>>
    decreases n,
{
    if n <= 0 {
        Seq::empty()
    } else if n == 1 {
        seq![seq![lines[0]]]
    } else {
        let g = groups(lines, chars, n - 1);
        if para_break(lines, chars, n - 1) {
            g.push(seq![lines[n - 1]])
        } else {
            g.update(g.len() - 1, g.last().push(lines[n - 1]))
        }
    }
}

pub open spec fn min_i32(a: i32, b: i32) -> i32 {
    if a <= b {
        a
    } else {
        b
    }
}

pub open spec fn max_i32(a: i32, b: i32) -> i32 {
    if a >= b {
        a
    } else {
        b
    }
}

/// The smallest box holding every line's box (the empty box for no lines).
pub open spec fn union_box(ls: Seq<TextLine>) -> BBox
    decreases ls.len(),
{
    if ls.len() == 0 {
        BBox { x0: 0, y0: 0, x1: 0, y1: 0 }
    } else if ls.len() == 1 {
        ls[0].bbox
    } else {
        let b = union_box(ls.drop_last());
        let l = ls.last().bbox;
        BBox {
            x0: min_i32(b.x0, l.x0),
            y0: min_i32(b.y0, l.y0),
            x1: max_i32(b.x1, l.x1),
            y1: max_i32(b.y1, l.y1),
        }
    }
}

pub open spec fn line_texts(ls: Seq<TextLine>) -> Seq<Seq<char>> {
    ls.map_values(|l: TextLine| l.text@)
}

/// The block is the paragraph of the lines `g`: their texts joined by
/// spaces, in the box that holds them all.
pub open spec fn is_paragraph_of(b: Block, g: Seq<TextLine>) -> bool {
    b matches Block::Paragraph(p) && p.text@ == join(line_texts(g), seq![' ']) && p.bbox
        == union_box(g) && p.heading_level is None && p.role is None
}

/// Where the paragraphs of the first `n` lines start: line 0, then every
/// line at which a break occurs.
pub open spec fn paragraph_starts(lines: Seq<TextLine>, chars: Seq<Char>, n: int) -> Seq<int>
    decreases n,
{
    if n <= 0 {
        Seq::empty()
    } else if n == 1 {
        seq![0]
    } else if para_break(lines, chars, n - 1) {
        paragraph_starts(lines, chars, n - 1).push(n - 1)
    } else {
        paragraph_starts(lines, chars, n - 1)
    }
}

/// Paragraphs are the maximal runs of lines without a break: the `j`-th
/// paragraph holds the lines from its start up to the next paragraph's
/// start (or the end).
pub proof fn lemma_paragraphs_are_runs(lines: Seq<TextLine>, chars: Seq<Char>, n: int)
    requires
        0 <= n <= lines.len(),
    ensures
        groups(lines, chars, n).len() == paragraph_starts(lines, chars, n).len(),
        forall|j: int|
            0 <= j < groups(lines, chars, n).len() ==> #[trigger] groups(lines, chars, n)[j]
                == lines.subrange(
                paragraph_starts(lines, chars, n)[j],
                if j + 1 < paragraph_starts(lines, chars, n).len() {
                    paragraph_starts(lines, chars, n)[j + 1]
                } else {
                    n
                },
            ),
        n > 0 ==> paragraph_starts(lines, chars, n).len() >= 1 && paragraph_starts(lines, chars, n)[0] == 0,
        forall|j: int| 0 <= j < paragraph_starts(lines, chars, n).len() ==> 0 <= #[trigger] paragraph_starts(lines, chars, n)[j] < n,
    decreases n,
{
    if n == 1 {
        assert(lines.subrange(0, 1) =~= seq![lines[0]]);
    } else if n > 1 {
        lemma_paragraphs_are_runs(lines, chars, n - 1);
        let g = groups(lines, chars, n - 1);
        let st = paragraph_starts(lines, chars, n - 1);
        let g2 = groups(lines, chars, n);
        let st2 = paragraph_starts(lines, chars, n);
        if para_break(lines, chars, n - 1) {
            assert forall|j: int| 0 <= j < g2.len() implies #[trigger] g2[j] == lines.subrange(
                st2[j],
                if j + 1 < st2.len() {
                    st2[j + 1]
                } else {
                    n
                },
            ) by {
                if j + 1 < g2.len() {
                    assert(g2[j] == g[j]);
                } else {
                    assert(lines.subrange(n - 1, n) =~= seq![lines[n - 1]]);
                }
            }
        } else {
            assert forall|j: int| 0 <= j < g2.len() implies #[trigger] g2[j] == lines.subrange(
                st2[j],
                if j + 1 < st2.len() {
                    st2[j + 1]
                } else {
                    n
                },
            ) by {
                if j + 1 < g2.len() {
                    assert(g2[j] == g[j]);
                } else {
                    assert(g[j] == lines.subrange(st[j], n - 1));
                    assert(lines.subrange(st[j], n) =~= lines.subrange(st[j], n - 1).push(lines[n - 1]));
                }
            }
        }
    }
}

/// No line is lost or repeated: the paragraphs' lines, in order, are the
/// lines, and every paragraph holds at least one line.
pub proof fn lemma_paragraphs_partition_lines(lines: Seq<TextLine>, chars: Seq<Char>, n: int)
    requires
        0 <= n <= lines.len(),
    ensures
        groups(lines, chars, n).flatten() == lines.take(n),
        groups(lines, chars, n).len() == 0 <==> n == 0,
        forall|j: int| 0 <= j < groups(lines, chars, n).len() ==> (#[trigger] groups(lines, chars, n)[j]).len() > 0,
    decreases n,
{
    if n == 0 {
        assert(lines.take(0) =~= Seq::<TextLine>::empty());
    } else if n == 1 {
        assert(groups(lines, chars, n).len() == 1);
        Seq::<Seq<TextLine>>::empty().lemma_flatten_push(seq![lines[0]]);
        assert(Seq::<Seq<TextLine>>::empty().push(seq![lines[0]]) =~= seq![seq![lines[0]]]);
        assert(lines.take(1) =~= seq![lines[0]]);
    } else {
        lemma_paragraphs_partition_lines(lines, chars, n - 1);
        let g = groups(lines, chars, n - 1);
        assert(lines.take(n) =~= lines.take(n - 1).push(lines[n - 1]));
        if para_break(lines, chars, n - 1) {
            g.lemma_flatten_push(seq![lines[n - 1]]);
        } else {
            let init = g.drop_last();
            let last = g.last();
            assert(g =~= init.push(last));
            init.lemma_flatten_push(last);
            init.lemma_flatten_push(last.push(lines[n - 1]));
            assert(g.update(g.len() - 1, last.push(lines[n - 1])) =~= init.push(last.push(lines[n - 1])));
        }
    }
}

/// A new paragraph starts at line `i` exactly when the gap or the font size
/// breaks there; in particular a heading whose size differs enough from the
/// body text beneath it is never glued to it.
pub proof fn lemma_breaks_start_paragraphs(lines: Seq<TextLine>, chars: Seq<Char>, n: int, i: int)
    requires
        1 <= i < n <= lines.len(),
    ensures
        paragraph_starts(lines, chars, n).contains(i) <==> para_break(lines, chars, i),
        size_break_spec(lines[i - 1], lines[i], chars) ==> paragraph_starts(lines, chars, n).contains(i),
    decreases n,
{
    let st = paragraph_starts(lines, chars, n);
    if n - 1 == i {
        let prev = paragraph_starts(lines, chars, n - 1);
        lemma_paragraphs_are_runs(lines, chars, n - 1);
        if para_break(lines, chars, i) {
            assert(st[st.len() - 1] == i);
        } else {
            assert(st == prev);
            if prev.contains(i) {
                let j = choose|j: int| 0 <= j < prev.len() && prev[j] == i;
                assert(prev[j] < n - 1);
            }
        }
    } else {
        lemma_breaks_start_paragraphs(lines, chars, n - 1, i);
        let prev = paragraph_starts(lines, chars, n - 1);
        if para_break(lines, chars, n - 1) {
            assert(st == prev.push(n - 1));
            if prev.contains(i) {
                let j = choose|j: int| 0 <= j < prev.len() && prev[j] == i;
                assert(st[j] == i);
            }
            if st.contains(i) {
                let j = choose|j: int| 0 <= j < st.len() && st[j] == i;
                if j < prev.len() {
                    assert(prev[j] == i);
                }
            }
        }
    }
}

proof fn lemma_mode_unique(s: Seq<int>, k1: int, k2: int)
    requires
        is_mode(s, k1),
        is_mode(s, k2),
    ensures
        k1 == k2,
{
}

proof fn lemma_count_take(s: Seq<int>, j: int, b: int)
    requires
        0 <= j < s.len(),
    ensures
        count_of(s.take(j + 1), b) == count_of(s.take(j), b) + if s[j] == b {
            1nat
        } else {
            0nat
        },
{
    assert(s.take(j + 1).drop_last() =~= s.take(j));
}

proof fn lemma_count_pos(s: Seq<int>, b: int)
    ensures
        s.contains(b) <==> count_of(s, b) > 0,
    decreases s.len(),
{
    if s.len() > 0 {
        lemma_count_pos(s.drop_last(), b);
        if s.drop_last().contains(b) {
            let i = choose|i: int| 0 <= i < s.drop_last().len() && s.drop_last()[i] == b;
            assert(s[i] == b);
        }
        if s.contains(b) && s.last() != b {
            let i = choose|i: int| 0 <= i < s.len() && s[i] == b;
            assert(s.drop_last()[i] == b);
        }
    }
}

/// How often `b` occurs in `s`.
fn count_in(s: &Vec<i64>, b: i64) -> (c: usize)
    ensures
        c == count_of(s@.map_values(|x: i64| x as int), b as int),
{
    let ghost sv = s@.map_values(|x: i64| x as int);
    let mut c: usize = 0;
    let mut j: usize = 0;
    assert(sv.take(0) =~= Seq::<int>::empty());
    while j < s.len()
        invariant
            sv == s@.map_values(|x: i64| x as int),
            j <= s@.len(),
            c <= j,
            c == count_of(sv.take(j as int), b as int),
        decreases s@.len() - j,
    {
        proof {
            lemma_count_take(sv, j as int, b as int);
        }
        if s[j] == b {
            c = c + 1;
        }
        j = j + 1;
    }
    assert(sv.take(j as int) =~= sv);
    c
}

/// A line's dominant char size (mode over half-point buckets), or `None` if
/// the line carries no char indices; then no size split happens.
pub fn line_size(line: &TextLine, chars: &Vec<Char>) -> (r: Option<i64>)
    ensures
        match line_size_spec(*line, chars@) {
            Some(v) => r == Some(v as i64) && i64::MIN <= v <= i64::MAX,
            None => r is None,
        },
{
    let ghost target = line_buckets(line.chars@, chars@);
    let mut buckets: Vec<i64> = Vec::new();
    let mut i: usize = 0;
    assert(line.chars@.take(0) =~= Seq::<u32>::empty());
    while i < line.chars.len()
        invariant
            i <= line.chars@.len(),
            buckets@.map_values(|x: i64| x as int) == line_buckets(line.chars@.take(i as int), chars@),
            forall|j: int| 0 <= j < buckets@.len() ==> -50_000_000 <= #[trigger] buckets@[j] <= 50_000_000,
        decreases line.chars@.len() - i,
    {
        let idx = line.chars[i];
        assert(line.chars@.take(i + 1).drop_last() =~= line.chars@.take(i as int));
        if (idx as usize) < chars.len() {
            let size = chars[idx as usize].size as i64;
            let b: i64 = if size >= 0 {
                (size + 25) / 50
            } else {
                -((-size + 25) / 50)
            };
            let ghost prev = buckets@;
            buckets.push(b);
            assert(buckets@.map_values(|x: i64| x as int) =~= prev.map_values(|x: i64| x as int).push(b as int));
        }
        i = i + 1;
    }
    assert(line.chars@.take(i as int) =~= line.chars@);
    let ghost s = buckets@.map_values(|x: i64| x as int);
    if buckets.len() == 0 {
        return None;
    }
    let mut best: i64 = buckets[0];
    let mut best_count: usize = count_in(&buckets, best);
    assert(s[0] == best as int);
    let mut j: usize = 1;
    while j < buckets.len()
        invariant
            s == buckets@.map_values(|x: i64| x as int),
            1 <= j <= buckets@.len(),
            s.contains(best as int),
            -50_000_000 <= best <= 50_000_000,
            forall|k: int| 0 <= k < buckets@.len() ==> -50_000_000 <= #[trigger] buckets@[k] <= 50_000_000,
            best_count == count_of(s, best as int),
            forall|k: int|
                0 <= k < j ==> (count_of(s, #[trigger] s[k]) < best_count || (count_of(s, s[k])
                    == best_count && s[k] <= best)),
        decreases buckets@.len() - j,
    {
        let b = buckets[j];
        let c = count_in(&buckets, b);
        assert(s[j as int] == b as int);
        if c > best_count || (c == best_count && b > best) {
            best = b;
            best_count = c;
        }
        j = j + 1;
    }
    assert(is_mode(s, best as int)) by {
        assert forall|b: int| s.contains(b) implies (count_of(s, b) < count_of(s, best as int) || (
        count_of(s, b) == count_of(s, best as int) && b <= best)) by {
            let k = choose|k: int| 0 <= k < s.len() && s[k] == b;
        }
    }
    proof {
        let k = choose|k: int| is_mode(s, k);
        lemma_mode_unique(s, k, best as int);
    }
    Some(best * 50)
}

/// True when two lines' dominant font sizes differ enough to be different roles.
fn size_break(a: &TextLine, b: &TextLine, chars: &Vec<Char>) -> (r: bool)
    ensures
        r == size_break_spec(*a, *b, chars@),
{
    match (line_size(a, chars), line_size(b, chars)) {
        (Some(sa), Some(sb)) => {
            let (lo, hi) = if sa < sb {
                (sa, sb)
            } else {
                (sb, sa)
            };
            lo > 0 && (hi as i128) * 100 > (lo as i128) * 115
        },
        _ => false,
    }
}

/// The paragraph of `lines[start..end]`.
fn make_paragraph(lines: &Vec<TextLine>, start: usize, end: usize) -> (b: Block)
    requires
        start < end <= lines@.len(),
    ensures
        is_paragraph_of(b, lines@.subrange(start as int, end as int)),
{
    let ghost g = lines@.subrange(start as int, end as int);
    let mut texts: Vec<String> = Vec::new();
    let mut bbox = lines[start].bbox;
    let mut i: usize = start;
    while i < end
        invariant
            start <= i <= end <= lines@.len(),
            g == lines@.subrange(start as int, end as int),
            strings_view(texts@) == line_texts(g.take(i - start)),
            i > start ==> bbox == union_box(g.take(i - start)),
            i == start ==> bbox == lines@[start as int].bbox,
        decreases end - i,
    {
        let l = &lines[i];
        let t = l.text.clone();
        let ghost prev = texts@;
        texts.push(t);
        proof {
            lemma_strings_view_push(prev, t);
        }
        assert(g.take(i - start + 1).drop_last() =~= g.take(i - start));
        assert(line_texts(g.take(i - start + 1)) =~= line_texts(g.take(i - start)).push(l.text@));
        if i > start {
            let lb = l.bbox;
            bbox = BBox {
                x0: if bbox.x0 <= lb.x0 { bbox.x0 } else { lb.x0 },
                y0: if bbox.y0 <= lb.y0 { bbox.y0 } else { lb.y0 },
                x1: if bbox.x1 >= lb.x1 { bbox.x1 } else { lb.x1 },
                y1: if bbox.y1 >= lb.y1 { bbox.y1 } else { lb.y1 },
            };
        }
        i = i + 1;
    }
    assert(g.take(end - start) =~= g);
    let space: [char; 1] = [' '];
    assert(space@ =~= seq![' ']);
    let text = join_strings(&texts, &space);
    Block::Paragraph(Paragraph { bbox, text, heading_level: None, role: None })
}

/// Does a new paragraph start at line `i`?
fn breaks_at(lines: &Vec<TextLine>, chars: &Vec<Char>, i: usize) -> (r: bool)
    requires
        1 <= i < lines@.len(),
    ensures
        r == para_break(lines@, chars@, i as int),
{
    let prev = &lines[i - 1];
    let cur = &lines[i];
    let h0: i64 = cur.bbox.y0 as i64;
    let height: i64 = (prev.bbox.y1 as i64) - (prev.bbox.y0 as i64);
    let height: i64 = if height > 100 {
        height
    } else {
        100
    };
    let gap: i64 = h0 - (prev.bbox.y1 as i64);
    gap * 5 > height * 3 || size_break(prev, cur, chars)
}

/// Group ordered `lines` into paragraph blocks. `chars` backs each line's font
/// size (via its char indices) so a size change can break a paragraph.
pub fn group_paragraphs(lines: &Vec<TextLine>, chars: &Vec<Char>) -> (blocks: Vec<Block>)
    ensures
        blocks@.len() == groups(lines@, chars@, lines@.len() as int).len(),
        forall|j: int|
            0 <= j < blocks@.len() ==> is_paragraph_of(
                #[trigger] blocks@[j],
                groups(lines@, chars@, lines@.len() as int)[j],
            ),
{
    let mut blocks: Vec<Block> = Vec::new();
    if lines.len() == 0 {
        return blocks;
    }
    let mut start: usize = 0;
    let mut i: usize = 1;
    assert(lines@.subrange(0, 1) =~= seq![lines@[0]]);
    while i < lines.len()
        invariant
            1 <= i <= lines@.len(),
            start < i,
            groups(lines@, chars@, i as int).len() == blocks@.len() + 1,
            groups(lines@, chars@, i as int).last() == lines@.subrange(start as int, i as int),
            forall|j: int|
                0 <= j < blocks@.len() ==> is_paragraph_of(
                    #[trigger] blocks@[j],
                    groups(lines@, chars@, i as int)[j],
                ),
        decreases lines@.len() - i,
    {
        let ghost g = groups(lines@, chars@, i as int);
        if breaks_at(lines, chars, i) {
            let b = make_paragraph(lines, start, i);
            let ghost prev = blocks@;
            blocks.push(b);
            start = i;
            assert forall|j: int| 0 <= j < blocks@.len() implies is_paragraph_of(
                #[trigger] blocks@[j],
                groups(lines@, chars@, i + 1)[j],
            ) by {
                if j < prev.len() {
                    assert(blocks@[j] == prev[j]);
                }
            }
            assert(lines@.subrange(i as int, i + 1) =~= seq![lines@[i as int]]);
        } else {
            assert(lines@.subrange(start as int, i + 1) =~= lines@.subrange(start as int, i as int).push(
                lines@[i as int],
            ));
        }
        i = i + 1;
    }
    let b = make_paragraph(lines, start, lines.len());
    let ghost prev = blocks@;
    blocks.push(b);
    assert forall|j: int| 0 <= j < blocks@.len() implies is_paragraph_of(
        #[trigger] blocks@[j],
        groups(lines@, chars@, lines@.len() as int)[j],
    ) by {
        if j < prev.len() {
            assert(blocks@[j] == prev[j]);
        }
    }
    blocks
}

} // verus!
