//! Ruled-table reconstruction.
//!
//! Builds a table grid from the vector rules and rectangles of a page:
//! horizontal segments give row lines, vertical segments give column lines,
//! their crossings define cells, and chars are dropped into the cell that
//! contains their centre. Merged cells are inferred from **missing** interior
//! borders (a missing vertical border makes a horizontal span; a missing
//! horizontal border makes a vertical span).
//!
//! Segment and grid positions are kept doubled (in half IR units) so that the
//! midpoint of two IR coordinates is exact.

use vstd::prelude::*;

use crate::ir::{BBox, Cell, Char, Rect, Rule, Table, TableSource};
use crate::text::join;
use crate::layout::sort::{lemma_sort_elements, sort_by_key_spec, stable_sort_by_key, SortKey};

verus! {

/// Clustering and coverage tolerance: two points, in IR units.
pub const EPS: i64 = 200;

/// The same tolerance for doubled positions.
pub const EPS2: i64 = 400;

pub open spec fn abs(x: int) -> int {
    if x < 0 {
        -x
    } else {
        x
    }
}

pub open spec fn min_int(a: int, b: int) -> int {
    if a <= b {
        a
    } else {
        b
    }
}

pub open spec fn max_int(a: int, b: int) -> int {
    if a >= b {
        a
    } else {
        b
    }
}

/// An axis-aligned segment, doubled: `pos` is the constant coordinate,
/// `lo..hi` the span along the other axis.
#[derive(Clone, Copy, Debug, PartialEq, Eq)]
pub struct Seg {
    pub pos: i64,
    pub lo: i64,
    pub hi: i64,
}

/// A drawn line from `(x0, y0)` to `(x1, y1)`.
pub type Edge = (i32, i32, i32, i32);

/// The segment an edge gives, and whether it is horizontal; `None` for a
/// slanted edge.
pub open spec fn edge_seg(e: Edge) -> Option<(bool, Seg)> {
    let (x0, y0, x1, y1) = e;
    if abs(y0 - y1) <= EPS {
        Some(
            (
                true,
                Seg {
                    pos: (y0 + y1) as i64,
                    lo: (2 * min_int(x0 as int, x1 as int)) as i64,
                    hi: (2 * max_int(x0 as int, x1 as int)) as i64,
                },
            ),
        )
    } else if abs(x0 - x1) <= EPS {
        Some(
            (
                false,
                Seg {
                    pos: (x0 + x1) as i64,
                    lo: (2 * min_int(y0 as int, y1 as int)) as i64,
                    hi: (2 * max_int(y0 as int, y1 as int)) as i64,
                },
            ),
        )
    } else {
        None
    }
}

/// The four edges of a rectangle: top, bottom, left, right.
pub open spec fn rect_edges(b: BBox) -> Seq<Edge> {
    seq![(b.x0, b.y0, b.x1, b.y0), (b.x0, b.y1, b.x1, b.y1), (b.x0, b.y0, b.x0, b.y1), (b.x1, b.y0, b.x1, b.y1)]
}

/// Every edge of the page: the rules first, then each rectangle's four edges.
pub open spec fn page_edges(rects: Seq<Rect>, rules: Seq<Rule>) -> Seq<Edge> {
    rules.map_values(|r: Rule| (r.x0, r.y0, r.x1, r.y1)) + rects_edges(rects)
}

pub open spec fn rects_edges(rects: Seq<Rect>) -> Seq<Edge>
    decreases rects.len(),
{
    if rects.len() == 0 {
        Seq::empty()
    } else {
        rects_edges(rects.drop_last()) + rect_edges(rects.last().bbox)
    }
}

/// The segments of one orientation among `edges`, in order.
pub open spec fn segs_of(edges: Seq<Edge>, horizontal: bool) -> Seq<Seg>
    decreases edges.len(),
{
    if edges.len() == 0 {
        Seq::empty()
    } else {
        let rest = segs_of(edges.drop_last(), horizontal);
        match edge_seg(edges.last()) {
            Some((h, s)) => if h == horizontal {
                rest.push(s)
            } else {
                rest
            },
            None => rest,
        }
    }
}

fn push_edge(h: &mut Vec<Seg>, v: &mut Vec<Seg>, x0: i32, y0: i32, x1: i32, y1: i32)
    ensures
        final(h)@ == match edge_seg((x0, y0, x1, y1)) {
            Some((true, s)) => old(h)@.push(s),
            _ => old(h)@,
        },
        final(v)@ == match edge_seg((x0, y0, x1, y1)) {
            Some((false, s)) => old(v)@.push(s),
            _ => old(v)@,
        },
{
    let dy: i64 = (y0 as i64) - (y1 as i64);
    let dx: i64 = (x0 as i64) - (x1 as i64);
    if -EPS <= dy && dy <= EPS {
        let lo: i64 = if x0 <= x1 {
            x0 as i64
        } else {
            x1 as i64
        };
        let hi: i64 = if x0 >= x1 {
            x0 as i64
        } else {
            x1 as i64
        };
        h.push(Seg { pos: (y0 as i64) + (y1 as i64), lo: 2 * lo, hi: 2 * hi });
    } else if -EPS <= dx && dx <= EPS {
        let lo: i64 = if y0 <= y1 {
            y0 as i64
        } else {
            y1 as i64
        };
        let hi: i64 = if y0 >= y1 {
            y0 as i64
        } else {
            y1 as i64
        };
        v.push(Seg { pos: (x0 as i64) + (x1 as i64), lo: 2 * lo, hi: 2 * hi });
    }
}

proof fn lemma_segs_of_push(edges: Seq<Edge>, e: Edge, horizontal: bool)
    ensures
        segs_of(edges.push(e), horizontal) == match edge_seg(e) {
            Some((h, s)) => if h == horizontal {
                segs_of(edges, horizontal).push(s)
            } else {
                segs_of(edges, horizontal)
            },
            None => segs_of(edges, horizontal),
        },
{
    assert(edges.push(e).drop_last() =~= edges);
}

/// The horizontal and the vertical segments of the page's rules and
/// rectangles (slanted lines are ignored).
pub fn collect(rects: &Vec<Rect>, rules: &Vec<Rule>) -> (r: (Vec<Seg>, Vec<Seg>))
    ensures
        r.0@ == segs_of(page_edges(rects@, rules@), true),
        r.1@ == segs_of(page_edges(rects@, rules@), false),
{
    let ghost rule_edges = rules@.map_values(|r: Rule| (r.x0, r.y0, r.x1, r.y1));
    let mut h: Vec<Seg> = Vec::new();
    let mut v: Vec<Seg> = Vec::new();
    let mut i: usize = 0;
    while i < rules.len()
        invariant
            i <= rules@.len(),
            rule_edges == rules@.map_values(|r: Rule| (r.x0, r.y0, r.x1, r.y1)),
            h@ == segs_of(rule_edges.take(i as int), true),
            v@ == segs_of(rule_edges.take(i as int), false),
        decreases rules@.len() - i,
    {
        let r = rules[i];
        push_edge(&mut h, &mut v, r.x0, r.y0, r.x1, r.y1);
        proof {
            assert(rule_edges.take(i + 1) =~= rule_edges.take(i as int).push(
                (r.x0, r.y0, r.x1, r.y1),
            ));
            lemma_segs_of_push(rule_edges.take(i as int), (r.x0, r.y0, r.x1, r.y1), true);
            lemma_segs_of_push(rule_edges.take(i as int), (r.x0, r.y0, r.x1, r.y1), false);
        }
        i = i + 1;
    }
    assert(rule_edges.take(i as int) =~= rule_edges);
    let mut j: usize = 0;
    assert(rects_edges(rects@.take(0)) =~= Seq::<Edge>::empty());
    assert(rule_edges + Seq::<Edge>::empty() =~= rule_edges);
    while j < rects.len()
        invariant
            j <= rects@.len(),
            rule_edges == rules@.map_values(|r: Rule| (r.x0, r.y0, r.x1, r.y1)),
            h@ == segs_of(rule_edges + rects_edges(rects@.take(j as int)), true),
            v@ == segs_of(rule_edges + rects_edges(rects@.take(j as int)), false),
        decreases rects@.len() - j,
    {
        let b = rects[j].bbox;
        let ghost e0 = rule_edges + rects_edges(rects@.take(j as int));
        push_edge(&mut h, &mut v, b.x0, b.y0, b.x1, b.y0);
        push_edge(&mut h, &mut v, b.x0, b.y1, b.x1, b.y1);
        push_edge(&mut h, &mut v, b.x0, b.y0, b.x0, b.y1);
        push_edge(&mut h, &mut v, b.x1, b.y0, b.x1, b.y1);
        proof {
            let e1 = e0.push((b.x0, b.y0, b.x1, b.y0));
            let e2 = e1.push((b.x0, b.y1, b.x1, b.y1));
            let e3 = e2.push((b.x0, b.y0, b.x0, b.y1));
            let e4 = e3.push((b.x1, b.y0, b.x1, b.y1));
            lemma_segs_of_push(e0, (b.x0, b.y0, b.x1, b.y0), true);
            lemma_segs_of_push(e1, (b.x0, b.y1, b.x1, b.y1), true);
            lemma_segs_of_push(e2, (b.x0, b.y0, b.x0, b.y1), true);
            lemma_segs_of_push(e3, (b.x1, b.y0, b.x1, b.y1), true);
            lemma_segs_of_push(e0, (b.x0, b.y0, b.x1, b.y0), false);
            lemma_segs_of_push(e1, (b.x0, b.y1, b.x1, b.y1), false);
            lemma_segs_of_push(e2, (b.x0, b.y0, b.x0, b.y1), false);
            lemma_segs_of_push(e3, (b.x1, b.y0, b.x1, b.y1), false);
            assert(rects@.take(j + 1).drop_last() =~= rects@.take(j as int));
            assert(rule_edges + rects_edges(rects@.take(j + 1)) =~= e4);
        }
        j = j + 1;
    }
    assert(rects@.take(j as int) =~= rects@);
    (h, v)
}

impl SortKey for i64 {
    open spec fn key_spec(&self) -> int {
        *self as int
    }

    fn key(&self) -> (k: i64) {
        *self
    }
}

/// Distinct line positions of sorted positions `ps`: a position within the
/// tolerance of the last kept one joins it.
pub open spec fn cluster_spec(ps: Seq<i64>) -> Seq<i64>
    decreases ps.len(),
{
    if ps.len() == 0 {
        Seq::empty()
    } else {
        let out = cluster_spec(ps.drop_last());
        if out.len() > 0 && abs(ps.last() - out.last()) <= EPS2 {
            out
        } else {
            out.push(ps.last())
        }
    }
}

/// The positions of the segments.
pub open spec fn positions(segs: Seq<Seg>) -> Seq<i64> {
    segs.map_values(|s: Seg| s.pos)
}

/// Distinct line positions of the segments, ascending, clustering values
/// within the tolerance.
pub fn cluster_positions(segs: &Vec<Seg>) -> (r: Vec<i64>)
    ensures
        r@ == cluster_spec(sort_by_key_spec(positions(segs@))),
{
    let mut ps: Vec<i64> = Vec::new();
    let mut i: usize = 0;
    while i < segs.len()
        invariant
            i <= segs@.len(),
            ps@ == positions(segs@).take(i as int),
        decreases segs@.len() - i,
    {
        ps.push(segs[i].pos);
        i = i + 1;
        assert(ps@ =~= positions(segs@).take(i as int));
    }
    assert(ps@ =~= positions(segs@));
    let ps = stable_sort_by_key(ps);
    let mut out: Vec<i64> = Vec::new();
    let mut k: usize = 0;
    assert(ps@.take(0) =~= Seq::<i64>::empty());
    while k < ps.len()
        invariant
            k <= ps@.len(),
            out@ == cluster_spec(ps@.take(k as int)),
        decreases ps@.len() - k,
    {
        let p = ps[k];
        assert(ps@.take(k + 1).drop_last() =~= ps@.take(k as int));
        let n = out.len();
        if n > 0 {
            let last = out[n - 1];
            let d: i128 = (p as i128) - (last as i128);
            if !(-(EPS2 as i128) <= d && d <= EPS2 as i128) {
                out.push(p);
            }
        } else {
            out.push(p);
        }
        k = k + 1;
    }
    assert(ps@.take(k as int) =~= ps@);
    out
}


/// The segment lies at `pos` (within the tolerance) and covers `lo..hi`
/// (within the tolerance at each end).
pub open spec fn covers(s: Seg, pos: int, lo: int, hi: int) -> bool {
    abs(s.pos - pos) <= EPS2 && s.lo <= lo + EPS2 && s.hi >= hi - EPS2
}

/// Some segment lies at `pos` and covers the whole `lo..hi` range.
pub open spec fn has_seg_spec(segs: Seq<Seg>, pos: int, lo: int, hi: int) -> bool {
    exists|i: int| 0 <= i < segs.len() && covers(#[trigger] segs[i], pos, lo, hi)
}

/// Is there a segment at `pos` covering the whole `lo..hi` range?
fn has_seg(segs: &Vec<Seg>, pos: i64, lo: i64, hi: i64) -> (r: bool)
    ensures
        r == has_seg_spec(segs@, pos as int, lo as int, hi as int),
{
    let mut i: usize = 0;
    while i < segs.len()
        invariant
            i <= segs@.len(),
            forall|j: int| 0 <= j < i ==> !covers(#[trigger] segs@[j], pos as int, lo as int, hi as int),
        decreases segs@.len() - i,
    {
        let s = segs[i];
        let d: i128 = (s.pos as i128) - (pos as i128);
        if -(EPS2 as i128) <= d && d <= EPS2 as i128 && (s.lo as i128) <= (lo as i128) + (
        EPS2 as i128) && (s.hi as i128) >= (hi as i128) - (EPS2 as i128) {
            assert(covers(segs@[i as int], pos as int, lo as int, hi as int));
            return true;
        }
        i = i + 1;
    }
    false
}

/// How many columns the cell anchored at row `r`, column `c` spans, counting
/// from `k`: it grows right while the vertical border at its right edge is
/// missing in that row.
pub open spec fn cspan_from(xs: Seq<i64>, ys: Seq<i64>, vs: Seq<Seg>, r: int, c: int, k: int) -> int
    decreases xs.len() - c - k,
{
    if c + k >= xs.len() - 1 || k < 1 || has_seg_spec(vs, xs[c + k] as int, ys[r] as int, ys[r + 1] as int) {
        k
    } else {
        cspan_from(xs, ys, vs, r, c, k + 1)
    }
}

/// A horizontal border at `y` lies under some column of `c..c + cs`.
pub open spec fn border_under(xs: Seq<i64>, hs: Seq<Seg>, y: int, c: int, cs: int) -> bool {
    exists|cc: int| c <= cc < c + cs && has_seg_spec(hs, y, #[trigger] xs[cc] as int, xs[cc + 1] as int)
}

/// How many rows the cell anchored at `(r, c)` spanning `cs` columns spans,
/// counting from `k`: it grows down while no border lies under any of its
/// columns.
pub open spec fn rspan_from(xs: Seq<i64>, ys: Seq<i64>, hs: Seq<Seg>, r: int, c: int, cs: int, k: int) -> int
    decreases ys.len() - r - k,
{
    if r + k >= ys.len() - 1 || k < 1 || border_under(xs, hs, ys[r + k] as int, c, cs) {
        k
    } else {
        rspan_from(xs, ys, hs, r, c, cs, k + 1)
    }
}

pub open spec fn cspan_spec(xs: Seq<i64>, ys: Seq<i64>, vs: Seq<Seg>, r: int, c: int) -> int {
    cspan_from(xs, ys, vs, r, c, 1)
}

pub open spec fn rspan_spec(xs: Seq<i64>, ys: Seq<i64>, hs: Seq<Seg>, vs: Seq<Seg>, r: int, c: int) -> int {
    rspan_from(xs, ys, hs, r, c, cspan_spec(xs, ys, vs, r, c), 1)
}

/// A placed cell: its row, column, row span and column span.
pub type Anchor = (int, int, int, int);

/// Some earlier cell covers grid position `(r, c)`.
pub open spec fn covered_by(anchors: Seq<Anchor>, r: int, c: int) -> bool {
    exists|i: int|
        0 <= i < anchors.len() && (#[trigger] anchors[i]).0 <= r < anchors[i].0 + anchors[i].2
            && anchors[i].1 <= c < anchors[i].1 + anchors[i].3
}

/// The cells placed before grid position `(r, c)`, visiting the grid row by
/// row, left to right: a position not covered by an earlier cell anchors a
/// new one.
pub open spec fn anchors_at(xs: Seq<i64>, ys: Seq<i64>, hs: Seq<Seg>, vs: Seq<Seg>, r: int, c: int) -> Seq<Anchor>
    decreases r, c,
{
    if r <= 0 && c <= 0 {
        Seq::empty()
    } else if c <= 0 {
        anchors_at(xs, ys, hs, vs, r - 1, xs.len() - 1)
    } else {
        let a = anchors_at(xs, ys, hs, vs, r, c - 1);
        if covered_by(a, r, c - 1) {
            a
        } else {
            a.push((r, c - 1, rspan_spec(xs, ys, hs, vs, r, c - 1), cspan_spec(xs, ys, vs, r, c - 1)))
        }
    }
}

/// The cells anchored in row `r` left of column `c`.
pub open spec fn row_anchors(xs: Seq<i64>, ys: Seq<i64>, hs: Seq<Seg>, vs: Seq<Seg>, r: int, c: int) -> Seq<Anchor>
    decreases c,
{
    if c <= 0 {
        Seq::empty()
    } else {
        let prev = row_anchors(xs, ys, hs, vs, r, c - 1);
        if covered_by(anchors_at(xs, ys, hs, vs, r, c - 1), r, c - 1) {
            prev
        } else {
            prev.push((r, c - 1, rspan_spec(xs, ys, hs, vs, r, c - 1), cspan_spec(xs, ys, vs, r, c - 1)))
        }
    }
}

/// A doubled position back in IR units, rounded down.
pub open spec fn half(p: int) -> i32 {
    (p / 2) as i32
}

fn half_exec(p: i64) -> (r: i32)
    ensures
        r == half(p as int),
{
    let q: i64 = if p >= 0 {
        p / 2
    } else {
        (-(((-(p as i128)) + 1) / 2)) as i64
    };
    assert(q == p / 2);
    q as i32
}

/// A key for ordering a page char by its left edge.
#[derive(Clone, Copy, Debug, PartialEq, Eq)]
pub struct XKey {
    pub x0: i32,
    pub idx: usize,
}

impl SortKey for XKey {
    open spec fn key_spec(&self) -> int {
        self.x0 as int
    }

    fn key(&self) -> (k: i64) {
        self.x0 as i64
    }
}

/// The char's centre lies in the (doubled) box.
pub open spec fn centre_in(c: Char, x0: int, y0: int, x1: int, y1: int) -> bool {
    x0 <= c.bbox.x0 + c.bbox.x1 <= x1 && y0 <= c.bbox.y0 + c.bbox.y1 <= y1
}

/// The chars whose centre lies in the (doubled) box, in page order.
pub open spec fn inside_keys(chars: Seq<Char>, x0: int, y0: int, x1: int, y1: int) -> Seq<XKey>
    decreases chars.len(),
{
    if chars.len() == 0 {
        Seq::empty()
    } else {
        let rest = inside_keys(chars.drop_last(), x0, y0, x1, y1);
        let c = chars.last();
        if centre_in(c, x0, y0, x1, y1) {
            rest.push(XKey { x0: c.bbox.x0, idx: (chars.len() - 1) as usize })
        } else {
            rest
        }
    }
}

/// A space separates `c` from `prev` when the gap between them exceeds a
/// quarter of `c`'s size (at least one point).
pub open spec fn wide_gap(prev: Char, c: Char) -> bool {
    4 * (c.bbox.x0 - prev.bbox.x1) > max_int(c.size as int, 100)
}

/// The texts of the chars in `order`, a space inserted on each wide gap.
pub open spec fn text_of(chars: Seq<Char>, order: Seq<XKey>) -> Seq<char>
    decreases order.len(),
{
    if order.len() == 0 {
        Seq::empty()
    } else {
        let t = text_of(chars, order.drop_last());
        let c = chars[order.last().idx as int];
        let sep = if order.len() >= 2 && wide_gap(chars[order[order.len() - 2].idx as int], c) {
            seq![' ']
        } else {
            Seq::empty()
        };
        t + sep + c.text@
    }
}

/// The texts of the chars in `order`, one piece per char.
pub open spec fn char_texts(chars: Seq<Char>, order: Seq<XKey>) -> Seq<Seq<char>> {
    order.map_values(|k: XKey| chars[k.idx as int].text@)
}

/// Each char of `order` starts no later than the previous one ends: the
/// boxes touch or overlap.
pub open spec fn abutting(chars: Seq<Char>, order: Seq<XKey>) -> bool {
    forall|k: int|
        #![trigger order[k]]
        1 <= k < order.len() ==> chars[order[k].idx as int].bbox.x0 <= chars[order[k
            - 1].idx as int].bbox.x1
}

/// Each char of `order` starts at most a quarter of its size (at least one
/// point) after the right edge of the previous one.
pub open spec fn close_together(chars: Seq<Char>, order: Seq<XKey>) -> bool {
    forall|k: int|
        #![trigger order[k]]
        1 <= k < order.len() ==> 4 * (chars[order[k].idx as int].bbox.x0 - chars[order[k
            - 1].idx as int].bbox.x1) <= max_int(chars[order[k].idx as int].size as int, 100)
}

/// Each char of `order` starts more than a quarter of its size (at least one
/// point) after the right edge of the previous one.
pub open spec fn spaced_apart(chars: Seq<Char>, order: Seq<XKey>) -> bool {
    forall|k: int|
        #![trigger order[k]]
        1 <= k < order.len() ==> 4 * (chars[order[k].idx as int].bbox.x0 - chars[order[k
            - 1].idx as int].bbox.x1) > max_int(chars[order[k].idx as int].size as int, 100)
}

/// Chars that follow each other within a quarter of the size (at least one
/// point), measured from the right edge of one to the left edge of the next,
/// are joined with no space: the text is their texts one after another.
pub proof fn lemma_close_chars_join_without_space(chars: Seq<Char>, order: Seq<XKey>)
    requires
        close_together(chars, order),
    ensures
        text_of(chars, order) == char_texts(chars, order).flatten(),
    decreases order.len(),
{
    let ts = char_texts(chars, order);
    ts.lemma_flatten_and_flatten_alt_are_equivalent();
    if order.len() > 0 {
        let init = order.drop_last();
        assert forall|k: int| #![trigger init[k]] 1 <= k < init.len() implies 4 * (chars[init[k].idx as int].bbox.x0
            - chars[init[k - 1].idx as int].bbox.x1) <= max_int(chars[init[k].idx as int].size as int, 100) by {
            assert(init[k] == order[k]);
            assert(init[k - 1] == order[k - 1]);
        }
        lemma_close_chars_join_without_space(chars, init);
        char_texts(chars, init).lemma_flatten_and_flatten_alt_are_equivalent();
        assert(ts.drop_last() =~= char_texts(chars, init));
        if order.len() >= 2 {
            let k = order.len() - 1;
            assert(order[k] == order.last());
            assert(!wide_gap(chars[order[k - 1].idx as int], chars[order.last().idx as int]));
        }
        assert(text_of(chars, order) =~= ts.flatten_alt());
    }
}

/// Chars whose boxes touch or overlap are joined with no space: the text is
/// their texts one after another.
pub proof fn lemma_abutting_chars_join_without_space(chars: Seq<Char>, order: Seq<XKey>)
    requires
        abutting(chars, order),
    ensures
        text_of(chars, order) == char_texts(chars, order).flatten(),
{
    assert forall|k: int| #![trigger order[k]] 1 <= k < order.len() implies 4 * (chars[order[k].idx as int].bbox.x0
        - chars[order[k - 1].idx as int].bbox.x1) <= max_int(chars[order[k].idx as int].size as int, 100) by {
        assert(chars[order[k].idx as int].bbox.x0 <= chars[order[k - 1].idx as int].bbox.x1);
    }
    lemma_close_chars_join_without_space(chars, order);
}

/// Whether a space stands between two neighbours depends on those two chars
/// alone: the text splits at any neighbour pair into the text of the chars
/// before, a space if their gap is wide, and the text of the chars after.
pub proof fn lemma_cell_text_splits_at_each_gap(chars: Seq<Char>, order: Seq<XKey>, k: int)
    requires
        1 <= k < order.len(),
    ensures
        text_of(chars, order) == text_of(chars, order.take(k)) + (if 4 * (chars[order[k].idx as int].bbox.x0
            - chars[order[k - 1].idx as int].bbox.x1) > max_int(chars[order[k].idx as int].size as int, 100) {
            seq![' ']
        } else {
            Seq::empty()
        }) + text_of(chars, order.skip(k)),
    decreases order.len(),
{
    let n = order.len();
    let init = order.drop_last();
    let sep = if wide_gap(chars[order[k - 1].idx as int], chars[order[k].idx as int]) {
        seq![' ']
    } else {
        Seq::<char>::empty()
    };
    let tail = order.skip(k);
    if k == n - 1 {
        assert(init =~= order.take(k));
        assert(order.last() == order[k]);
        assert(tail.drop_last() =~= Seq::<XKey>::empty());
        assert(tail.last() == order[k]);
        assert(tail.len() == 1);
        assert(text_of(chars, tail.drop_last()) == Seq::<char>::empty());
        assert(text_of(chars, tail) =~= chars[order[k].idx as int].text@);
    } else {
        lemma_cell_text_splits_at_each_gap(chars, init, k);
        assert(init.take(k) =~= order.take(k));
        assert(init[k] == order[k]);
        assert(init[k - 1] == order[k - 1]);
        assert(tail.drop_last() =~= init.skip(k));
        assert(tail.last() == order.last());
        assert(tail[tail.len() - 2] == order[n - 2]);
        assert(order[n - 2] == order[order.len() - 2]);
        let lsep = if wide_gap(chars[order[n - 2].idx as int], chars[order.last().idx as int]) {
            seq![' ']
        } else {
            Seq::<char>::empty()
        };
        let c = chars[order.last().idx as int].text@;
        assert(text_of(chars, order) == text_of(chars, init) + lsep + c);
        assert(text_of(chars, tail) == text_of(chars, init.skip(k)) + lsep + c);
        assert(text_of(chars, order) =~= text_of(chars, order.take(k)) + sep + text_of(chars, tail));
    }
}

/// Chars set apart by more than a quarter of the size (at least one point),
/// measured from the right edge of one char to the left edge of the next, are
/// joined with one space between each two.
pub proof fn lemma_spaced_chars_join_with_spaces(chars: Seq<Char>, order: Seq<XKey>)
    requires
        spaced_apart(chars, order),
    ensures
        text_of(chars, order) == join(char_texts(chars, order), seq![' ']),
    decreases order.len(),
{
    let ts = char_texts(chars, order);
    if order.len() > 0 {
        let init = order.drop_last();
        assert forall|k: int| #![trigger init[k]] 1 <= k < init.len() implies 4 * (chars[init[k].idx as int].bbox.x0
            - chars[init[k - 1].idx as int].bbox.x1) > max_int(chars[init[k].idx as int].size as int, 100) by {
            assert(init[k] == order[k]);
            assert(init[k - 1] == order[k - 1]);
        }
        lemma_spaced_chars_join_with_spaces(chars, init);
        assert(ts.drop_last() =~= char_texts(chars, init));
        if order.len() >= 2 {
            let k = order.len() - 1;
            assert(order[k] == order.last());
            assert(wide_gap(chars[order[k - 1].idx as int], chars[order.last().idx as int]));
        } else {
            assert(text_of(chars, init) =~= Seq::<char>::empty());
            assert(text_of(chars, order) =~= ts[0]);
        }
    }
}

/// The text of a (doubled) cell box: the chars whose centre falls in it,
/// left to right (stable on equal left edges), spaces on wide gaps.
pub open spec fn cell_text_spec(chars: Seq<Char>, x0: int, y0: int, x1: int, y1: int) -> Seq<char> {
    text_of(chars, sort_by_key_spec(inside_keys(chars, x0, y0, x1, y1)))
}

/// Concatenate the chars whose centre falls in the (doubled) cell box,
/// left to right, inserting spaces on wide gaps.
fn cell_text(chars: &Vec<Char>, x0: i64, y0: i64, x1: i64, y1: i64) -> (s: String)
    ensures
        s@ == cell_text_spec(chars@, x0 as int, y0 as int, x1 as int, y1 as int),
{
    let mut keys: Vec<XKey> = Vec::new();
    let mut i: usize = 0;
    while i < chars.len()
        invariant
            i <= chars@.len(),
            keys@ == inside_keys(chars@.take(i as int), x0 as int, y0 as int, x1 as int, y1 as int),
            forall|k: int| 0 <= k < keys@.len() ==> (#[trigger] keys@[k]).idx < i,
        decreases chars@.len() - i,
    {
        let c = &chars[i];
        assert(chars@.take(i + 1).drop_last() =~= chars@.take(i as int));
        let cx: i64 = (c.bbox.x0 as i64) + (c.bbox.x1 as i64);
        let cy: i64 = (c.bbox.y0 as i64) + (c.bbox.y1 as i64);
        if x0 <= cx && cx <= x1 && y0 <= cy && cy <= y1 {
            keys.push(XKey { x0: c.bbox.x0, idx: i });
        }
        i = i + 1;
    }
    assert(chars@.take(i as int) =~= chars@);
    let ghost ks = keys@;
    let order = stable_sort_by_key(keys);
    proof {
        lemma_sort_elements(ks);
    }
    assert forall|k: int| 0 <= k < order@.len() implies (#[trigger] order@[k]).idx < chars@.len() by {
        assert(ks.contains(order@[k]));
    }
    let mut text = String::new();
    let mut j: usize = 0;
    assert(order@.take(0) =~= Seq::<XKey>::empty());
    while j < order.len()
        invariant
            j <= order@.len(),
            forall|k: int| 0 <= k < order@.len() ==> (#[trigger] order@[k]).idx < chars@.len(),
            text@ == text_of(chars@, order@.take(j as int)),
        decreases order@.len() - j,
    {
        let c = &chars[order[j].idx];
        let ghost before = text@;
        assert(order@.take(j + 1).drop_last() =~= order@.take(j as int));
        if j > 0 {
            let p = &chars[order[j - 1].idx];
            let gap: i64 = (c.bbox.x0 as i64) - (p.bbox.x1 as i64);
            let size: i64 = if c.size >= 100 {
                c.size as i64
            } else {
                100
            };
            if 4 * gap > size {
                crate::text::push_char(&mut text, ' ');
            }
            assert(order@.take(j + 1)[j - 1] == order@[j - 1]);
        }
        text.append(c.text.as_str());
        j = j + 1;
        assert(text@ =~= text_of(chars@, order@.take(j as int)));
    }
    assert(order@.take(j as int) =~= order@);
    text
}


/// The anchors as integers.
pub open spec fn anchors_view(a: Seq<(usize, usize, usize, usize)>) -> Seq<Anchor> {
    a.map_values(|x: (usize, usize, usize, usize)| (x.0 as int, x.1 as int, x.2 as int, x.3 as int))
}

fn is_covered(anchors: &Vec<(usize, usize, usize, usize)>, r: usize, c: usize) -> (b: bool)
    ensures
        b == covered_by(anchors_view(anchors@), r as int, c as int),
{
    let ghost av = anchors_view(anchors@);
    let mut i: usize = 0;
    while i < anchors.len()
        invariant
            i <= anchors@.len(),
            av == anchors_view(anchors@),
            forall|j: int|
                0 <= j < i ==> !((#[trigger] av[j]).0 <= r < av[j].0 + av[j].2 && av[j].1 <= c < av[j].1
                    + av[j].3),
        decreases anchors@.len() - i,
    {
        let a = anchors[i];
        assert(av[i as int] == (a.0 as int, a.1 as int, a.2 as int, a.3 as int));
        if a.0 <= r && r - a.0 < a.2 && a.1 <= c && c - a.1 < a.3 {
            return true;
        }
        i = i + 1;
    }
    false
}

fn border_under_exec(xs: &Vec<i64>, hs: &Vec<Seg>, y: i64, c: usize, cs: usize) -> (b: bool)
    requires
        c + cs < xs@.len(),
    ensures
        b == border_under(xs@, hs@, y as int, c as int, cs as int),
{
    let _n = xs.len();
    let end = c + cs;
    let mut cc: usize = c;
    while cc < end
        invariant
            end == c + cs,
            c <= cc <= c + cs,
            c + cs < xs@.len(),
            forall|k: int| c <= k < cc ==> !has_seg_spec(hs@, y as int, #[trigger] xs@[k] as int, xs@[k + 1] as int),
        decreases c + cs - cc,
    {
        if has_seg(hs, y, xs[cc], xs[cc + 1]) {
            return true;
        }
        cc = cc + 1;
    }
    false
}

/// Column span of the cell anchored at `(r, c)`.
fn cspan(xs: &Vec<i64>, ys: &Vec<i64>, vs: &Vec<Seg>, r: usize, c: usize) -> (k: usize)
    requires
        r + 1 < ys@.len(),
        c + 1 < xs@.len(),
    ensures
        k == cspan_spec(xs@, ys@, vs@, r as int, c as int),
        1 <= k,
        c + k < xs@.len(),
{
    let ncol = xs.len() - 1;
    let mut k: usize = 1;
    let _m = ys.len();
    let below = r + 1;
    while c + k < ncol && !has_seg(vs, xs[c + k], ys[r], ys[below])
        invariant
            below == r + 1,
            1 <= k,
            c + k <= ncol,
            ncol == xs@.len() - 1,
            r + 1 < ys@.len(),
            cspan_from(xs@, ys@, vs@, r as int, c as int, k as int) == cspan_spec(
                xs@,
                ys@,
                vs@,
                r as int,
                c as int,
            ),
        decreases ncol - c - k,
    {
        k = k + 1;
    }
    k
}

/// Row span of the cell anchored at `(r, c)` spanning `cs` columns.
fn rspan(xs: &Vec<i64>, ys: &Vec<i64>, hs: &Vec<Seg>, r: usize, c: usize, cs: usize) -> (k: usize)
    requires
        r + 1 < ys@.len(),
        c + cs < xs@.len(),
        1 <= cs,
    ensures
        k == rspan_from(xs@, ys@, hs@, r as int, c as int, cs as int, 1),
        1 <= k,
        r + k < ys@.len(),
{
    let nrow = ys.len() - 1;
    let mut k: usize = 1;
    while r + k < nrow && !border_under_exec(xs, hs, ys[r + k], c, cs)
        invariant
            1 <= k,
            r + k <= nrow,
            nrow == ys@.len() - 1,
            c + cs < xs@.len(),
            rspan_from(xs@, ys@, hs@, r as int, c as int, cs as int, k as int) == rspan_from(
                xs@,
                ys@,
                hs@,
                r as int,
                c as int,
                cs as int,
                1,
            ),
        decreases nrow - r - k,
    {
        k = k + 1;
    }
    k
}

/// The cell is the one anchored at `a`: its box, spans and text.
pub open spec fn cell_is(cell: Cell, a: Anchor, chars: Seq<Char>, xs: Seq<i64>, ys: Seq<i64>) -> bool {
    let (r, c, rs, cs) = a;
    &&& cell.bbox == BBox {
        x0: half(xs[c] as int),
        y0: half(ys[r] as int),
        x1: half(xs[c + cs] as int),
        y1: half(ys[r + rs] as int),
    }
    &&& cell.row_span == rs as u16
    &&& cell.col_span == cs as u16
    &&& cell.text@ == cell_text_spec(chars, xs[c] as int, ys[r] as int, xs[c + cs] as int, ys[r + rs] as int)
}

/// The row's cells are the cells anchored in row `r`, in order.
pub open spec fn row_is(
    row: Seq<Cell>,
    chars: Seq<Char>,
    xs: Seq<i64>,
    ys: Seq<i64>,
    hs: Seq<Seg>,
    vs: Seq<Seg>,
    r: int,
) -> bool {
    let want = row_anchors(xs, ys, hs, vs, r, xs.len() - 1);
    &&& row.len() == want.len()
    &&& forall|k: int| 0 <= k < row.len() ==> cell_is(#[trigger] row[k], want[k], chars, xs, ys)
}

/// The table of the grid `xs` × `ys` with borders `hs`, `vs`.
pub open spec fn table_is(
    t: Table,
    chars: Seq<Char>,
    xs: Seq<i64>,
    ys: Seq<i64>,
    hs: Seq<Seg>,
    vs: Seq<Seg>,
) -> bool {
    &&& t.bbox == BBox {
        x0: half(xs[0] as int),
        y0: half(ys[0] as int),
        x1: half(xs.last() as int),
        y1: half(ys.last() as int),
    }
    &&& t.source == TableSource::Ruled
    &&& t.rows@.len() == ys.len() - 1
    &&& forall|r: int| 0 <= r < t.rows@.len() ==> row_is((#[trigger] t.rows@[r])@, chars, xs, ys, hs, vs, r)
}

fn build_table(chars: &Vec<Char>, xs: &Vec<i64>, ys: &Vec<i64>, hs: &Vec<Seg>, vs: &Vec<Seg>) -> (t: Table)
    requires
        xs@.len() >= 2,
        ys@.len() >= 2,
    ensures
        table_is(t, chars@, xs@, ys@, hs@, vs@),
{
    let ncol = xs.len() - 1;
    let nrow = ys.len() - 1;
    let mut anchors: Vec<(usize, usize, usize, usize)> = Vec::new();
    let mut rows: Vec<Vec<Cell>> = Vec::new();
    let mut r: usize = 0;
    while r < nrow
        invariant
            ncol == xs@.len() - 1,
            nrow == ys@.len() - 1,
            r <= nrow,
            rows@.len() == r,
            anchors_view(anchors@) == anchors_at(xs@, ys@, hs@, vs@, r as int, 0),
            forall|rr: int| 0 <= rr < r ==> row_is((#[trigger] rows@[rr])@, chars@, xs@, ys@, hs@, vs@, rr),
        decreases nrow - r,
    {
        let mut cells: Vec<Cell> = Vec::new();
        let mut c: usize = 0;
        while c < ncol
            invariant
                ncol == xs@.len() - 1,
                nrow == ys@.len() - 1,
                r < nrow,
                c <= ncol,
                anchors_view(anchors@) == anchors_at(xs@, ys@, hs@, vs@, r as int, c as int),
                cells@.len() == row_anchors(xs@, ys@, hs@, vs@, r as int, c as int).len(),
                forall|k: int|
                    0 <= k < cells@.len() ==> cell_is(
                        #[trigger] cells@[k],
                        row_anchors(xs@, ys@, hs@, vs@, r as int, c as int)[k],
                        chars@,
                        xs@,
                        ys@,
                    ),
            decreases ncol - c,
        {
            let ghost before = anchors_view(anchors@);
            if !is_covered(&anchors, r, c) {
                let cs = cspan(xs, ys, vs, r, c);
                let rs = rspan(xs, ys, hs, r, c, cs);
                anchors.push((r, c, rs, cs));
                assert(anchors_view(anchors@) =~= before.push((r as int, c as int, rs as int, cs as int)));
                let text = cell_text(chars, xs[c], ys[r], xs[c + cs], ys[r + rs]);
                let bbox = BBox {
                    x0: half_exec(xs[c]),
                    y0: half_exec(ys[r]),
                    x1: half_exec(xs[c + cs]),
                    y1: half_exec(ys[r + rs]),
                };
                let ghost prev_cells = cells@;
                cells.push(Cell { text, bbox, row_span: rs as u16, col_span: cs as u16 });
                assert forall|k: int| 0 <= k < cells@.len() implies cell_is(
                    #[trigger] cells@[k],
                    row_anchors(xs@, ys@, hs@, vs@, r as int, c + 1)[k],
                    chars@,
                    xs@,
                    ys@,
                ) by {
                    if k < prev_cells.len() {
                        assert(cells@[k] == prev_cells[k]);
                    }
                }
            }
            c = c + 1;
        }
        let ghost prev_rows = rows@;
        rows.push(cells);
        assert forall|rr: int| 0 <= rr < r + 1 implies row_is(
            (#[trigger] rows@[rr])@,
            chars@,
            xs@,
            ys@,
            hs@,
            vs@,
            rr,
        ) by {
            if rr < r {
                assert(rows@[rr] == prev_rows[rr]);
            }
        }
        r = r + 1;
    }
    let bbox = BBox {
        x0: half_exec(xs[0]),
        y0: half_exec(ys[0]),
        x1: half_exec(xs[ncol]),
        y1: half_exec(ys[nrow]),
    };
    Table { bbox, rows, source: TableSource::Ruled }
}

/// There is a real grid: at least two lines each way and at least one
/// interior divider.
pub open spec fn is_grid(xs: Seq<i64>, ys: Seq<i64>) -> bool {
    xs.len() >= 2 && ys.len() >= 2 && (xs.len() >= 3 || ys.len() >= 3)
}

/// The row (horizontal) and column (vertical) line positions of a page.
pub open spec fn grid_lines(rects: Seq<Rect>, rules: Seq<Rule>) -> (Seq<i64>, Seq<i64>) {
    let edges = page_edges(rects, rules);
    (
        cluster_spec(sort_by_key_spec(positions(segs_of(edges, false)))),
        cluster_spec(sort_by_key_spec(positions(segs_of(edges, true)))),
    )
}

/// Detect ruled tables on a page: at most one table (the bounding grid).
pub fn detect_ruled(chars: &Vec<Char>, rects: &Vec<Rect>, rules: &Vec<Rule>) -> (ts: Vec<Table>)
    ensures
        ({
            let (xs, ys) = grid_lines(rects@, rules@);
            let edges = page_edges(rects@, rules@);
            &&& is_grid(xs, ys) ==> ts@.len() == 1 && table_is(
                ts@[0],
                chars@,
                xs,
                ys,
                segs_of(edges, true),
                segs_of(edges, false),
            )
            &&& !is_grid(xs, ys) ==> ts@.len() == 0
        }),
{
    let (hsegs, vsegs) = collect(rects, rules);
    let ys = cluster_positions(&hsegs);
    let xs = cluster_positions(&vsegs);
    if xs.len() < 2 || ys.len() < 2 || (xs.len() < 3 && ys.len() < 3) {
        return Vec::new();
    }
    let t = build_table(chars, &xs, &ys, &hsegs, &vsegs);
    let mut ts: Vec<Table> = Vec::new();
    ts.push(t);
    ts
}


proof fn lemma_cspan_at_least(xs: Seq<i64>, ys: Seq<i64>, vs: Seq<Seg>, r: int, c: int, k: int)
    requires
        k >= 1,
    ensures
        cspan_from(xs, ys, vs, r, c, k) >= k,
        c + k <= xs.len() - 1 ==> c + cspan_from(xs, ys, vs, r, c, k) <= xs.len() - 1,
    decreases xs.len() - c - k,
{
    if !(c + k >= xs.len() - 1 || has_seg_spec(vs, xs[c + k] as int, ys[r] as int, ys[r + 1] as int)) {
        lemma_cspan_at_least(xs, ys, vs, r, c, k + 1);
    }
}

proof fn lemma_rspan_at_least(xs: Seq<i64>, ys: Seq<i64>, hs: Seq<Seg>, r: int, c: int, cs: int, k: int)
    requires
        k >= 1,
    ensures
        rspan_from(xs, ys, hs, r, c, cs, k) >= k,
        r + k <= ys.len() - 1 ==> r + rspan_from(xs, ys, hs, r, c, cs, k) <= ys.len() - 1,
    decreases ys.len() - r - k,
{
    if !(r + k >= ys.len() - 1 || border_under(xs, hs, ys[r + k] as int, c, cs)) {
        lemma_rspan_at_least(xs, ys, hs, r, c, cs, k + 1);
    }
}

/// A position covered before `(r, c)` stays covered at every later position.
proof fn lemma_covered_persists(
    xs: Seq<i64>,
    ys: Seq<i64>,
    hs: Seq<Seg>,
    vs: Seq<Seg>,
    r: int,
    c: int,
    r2: int,
    c2: int,
    i: int,
    j: int,
)
    requires
        xs.len() >= 2,
        0 <= r,
        0 <= c <= xs.len() - 1,
        0 <= c2 <= xs.len() - 1,
        r < r2 || (r == r2 && c <= c2),
        covered_by(anchors_at(xs, ys, hs, vs, r, c), i, j),
    ensures
        covered_by(anchors_at(xs, ys, hs, vs, r2, c2), i, j),
    decreases r2, c2,
{
    if r == r2 && c == c2 {
    } else if c2 > 0 {
        lemma_covered_persists(xs, ys, hs, vs, r, c, r2, c2 - 1, i, j);
        let a = anchors_at(xs, ys, hs, vs, r2, c2 - 1);
        let k = choose|k: int|
            0 <= k < a.len() && (#[trigger] a[k]).0 <= i < a[k].0 + a[k].2 && a[k].1 <= j < a[k].1 + a[k].3;
        if !covered_by(a, r2, c2 - 1) {
            let b = a.push(
                (r2, c2 - 1, rspan_spec(xs, ys, hs, vs, r2, c2 - 1), cspan_spec(xs, ys, vs, r2, c2 - 1)),
            );
            assert(b[k] == a[k]);
        }
    } else {
        lemma_covered_persists(xs, ys, hs, vs, r, c, r2 - 1, xs.len() - 1, i, j);
    }
}

/// The cells placed before `(r, c)` are those placed before row `r`
/// followed by the cells anchored in row `r` left of `c`.
proof fn lemma_anchors_by_row(xs: Seq<i64>, ys: Seq<i64>, hs: Seq<Seg>, vs: Seq<Seg>, r: int, c: int)
    requires
        0 <= r,
        0 <= c <= xs.len() - 1,
    ensures
        anchors_at(xs, ys, hs, vs, r, c) == anchors_at(xs, ys, hs, vs, r, 0) + row_anchors(xs, ys, hs, vs, r, c),
    decreases c,
{
    if c == 0 {
        assert(anchors_at(xs, ys, hs, vs, r, 0) + Seq::<Anchor>::empty() =~= anchors_at(xs, ys, hs, vs, r, 0));
    } else {
        lemma_anchors_by_row(xs, ys, hs, vs, r, c - 1);
        let base = anchors_at(xs, ys, hs, vs, r, 0);
        let ra = row_anchors(xs, ys, hs, vs, r, c - 1);
        if !covered_by(anchors_at(xs, ys, hs, vs, r, c - 1), r, c - 1) {
            let x = (r, c - 1, rspan_spec(xs, ys, hs, vs, r, c - 1), cspan_spec(xs, ys, vs, r, c - 1));
            assert((base + ra).push(x) =~= base + ra.push(x));
        }
    }
}

/// A position covered by the cells placed before row `rows` is covered by a
/// cell anchored in one of those rows.
proof fn lemma_covered_by_some_row(
    xs: Seq<i64>,
    ys: Seq<i64>,
    hs: Seq<Seg>,
    vs: Seq<Seg>,
    rows: int,
    i: int,
    j: int,
)
    requires
        xs.len() >= 2,
        0 <= rows,
        covered_by(anchors_at(xs, ys, hs, vs, rows, 0), i, j),
    ensures
        exists|r: int, k: int|
            0 <= r < rows && 0 <= k < row_anchors(xs, ys, hs, vs, r, xs.len() - 1).len() && {
                let a = #[trigger] row_anchors(xs, ys, hs, vs, r, xs.len() - 1)[k];
                a.0 <= i < a.0 + a.2 && a.1 <= j < a.1 + a.3
            },
    decreases rows,
{
    let ncol = xs.len() - 1;
    if rows == 0 {
        assert(anchors_at(xs, ys, hs, vs, 0, 0) =~= Seq::<Anchor>::empty());
    } else {
        let r = rows - 1;
        lemma_anchors_by_row(xs, ys, hs, vs, r, ncol);
        let base = anchors_at(xs, ys, hs, vs, r, 0);
        let ra = row_anchors(xs, ys, hs, vs, r, ncol);
        let all = anchors_at(xs, ys, hs, vs, rows, 0);
        assert(all == base + ra);
        let k = choose|k: int|
            0 <= k < all.len() && (#[trigger] all[k]).0 <= i < all[k].0 + all[k].2 && all[k].1 <= j < all[k].1 + all[k].3;
        if k < base.len() {
            assert(all[k] == base[k]);
            lemma_covered_by_some_row(xs, ys, hs, vs, r, i, j);
        } else {
            assert(all[k] == ra[k - base.len()]);
        }
    }
}

/// No part of the grid is dropped: every grid position lies within the
/// span of some cell of some row of the table.
pub proof fn lemma_every_grid_position_in_a_cell(xs: Seq<i64>, ys: Seq<i64>, hs: Seq<Seg>, vs: Seq<Seg>, i: int, j: int)
    requires
        xs.len() >= 2,
        ys.len() >= 2,
        0 <= i < ys.len() - 1,
        0 <= j < xs.len() - 1,
    ensures
        exists|r: int, k: int|
            0 <= r < ys.len() - 1 && 0 <= k < row_anchors(xs, ys, hs, vs, r, xs.len() - 1).len() && {
                let a = #[trigger] row_anchors(xs, ys, hs, vs, r, xs.len() - 1)[k];
                a.0 <= i < a.0 + a.2 && a.1 <= j < a.1 + a.3
            },
{
    let a = anchors_at(xs, ys, hs, vs, i, j);
    let b = anchors_at(xs, ys, hs, vs, i, j + 1);
    if covered_by(a, i, j) {
        let k = choose|k: int|
            0 <= k < a.len() && (#[trigger] a[k]).0 <= i < a[k].0 + a[k].2 && a[k].1 <= j < a[k].1 + a[k].3;
        assert(b == a);
        assert(b[k] == a[k]);
    } else {
        lemma_cspan_at_least(xs, ys, vs, i, j, 1);
        lemma_rspan_at_least(xs, ys, hs, i, j, cspan_spec(xs, ys, vs, i, j), 1);
        assert(b[b.len() - 1] == (i, j, rspan_spec(xs, ys, hs, vs, i, j), cspan_spec(xs, ys, vs, i, j)));
    }
    assert(covered_by(b, i, j));
    lemma_covered_persists(xs, ys, hs, vs, i, j + 1, ys.len() - 1, 0, i, j);
    lemma_covered_by_some_row(xs, ys, hs, vs, ys.len() - 1, i, j);
}

/// Every cell is anchored inside the grid, spans at least one row and
/// column, and does not reach past the grid's last line.
pub proof fn lemma_cells_within_grid(xs: Seq<i64>, ys: Seq<i64>, hs: Seq<Seg>, vs: Seq<Seg>, r: int, k: int)
    requires
        xs.len() >= 2,
        ys.len() >= 2,
        0 <= r < ys.len() - 1,
        0 <= k < row_anchors(xs, ys, hs, vs, r, xs.len() - 1).len(),
    ensures
        ({
            let a = row_anchors(xs, ys, hs, vs, r, xs.len() - 1)[k];
            &&& a.0 == r
            &&& 0 <= a.1 < xs.len() - 1
            &&& a.2 >= 1 && a.0 + a.2 <= ys.len() - 1
            &&& a.3 >= 1 && a.1 + a.3 <= xs.len() - 1
        }),
{
    lemma_row_anchors_within(xs, ys, hs, vs, r, xs.len() - 1, k);
}

proof fn lemma_row_anchors_within(xs: Seq<i64>, ys: Seq<i64>, hs: Seq<Seg>, vs: Seq<Seg>, r: int, c: int, k: int)
    requires
        xs.len() >= 2,
        ys.len() >= 2,
        0 <= r < ys.len() - 1,
        0 <= c <= xs.len() - 1,
        0 <= k < row_anchors(xs, ys, hs, vs, r, c).len(),
    ensures
        ({
            let a = row_anchors(xs, ys, hs, vs, r, c)[k];
            &&& a.0 == r
            &&& 0 <= a.1 < c
            &&& a.2 >= 1 && a.0 + a.2 <= ys.len() - 1
            &&& a.3 >= 1 && a.1 + a.3 <= xs.len() - 1
        }),
    decreases c,
{
    let ra = row_anchors(xs, ys, hs, vs, r, c - 1);
    if k < ra.len() {
        lemma_row_anchors_within(xs, ys, hs, vs, r, c - 1, k);
        assert(row_anchors(xs, ys, hs, vs, r, c)[k] == ra[k]);
    } else {
        lemma_cspan_at_least(xs, ys, vs, r, c - 1, 1);
        lemma_rspan_at_least(xs, ys, hs, r, c - 1, cspan_spec(xs, ys, vs, r, c - 1), 1);
    }
}


proof fn lemma_cspan_run(xs: Seq<i64>, ys: Seq<i64>, vs: Seq<Seg>, r: int, c: int, k: int)
    requires
        k >= 1,
        c + k <= xs.len() - 1,
    ensures
        forall|m: int|
            k <= m < cspan_from(xs, ys, vs, r, c, k) ==> !has_seg_spec(
                vs,
                #[trigger] xs[c + m] as int,
                ys[r] as int,
                ys[r + 1] as int,
            ),
        c + cspan_from(xs, ys, vs, r, c, k) < xs.len() - 1 ==> has_seg_spec(
            vs,
            xs[c + cspan_from(xs, ys, vs, r, c, k)] as int,
            ys[r] as int,
            ys[r + 1] as int,
        ),
    decreases xs.len() - c - k,
{
    if !(c + k >= xs.len() - 1 || has_seg_spec(vs, xs[c + k] as int, ys[r] as int, ys[r + 1] as int)) {
        lemma_cspan_run(xs, ys, vs, r, c, k + 1);
    }
}

proof fn lemma_rspan_run(xs: Seq<i64>, ys: Seq<i64>, hs: Seq<Seg>, r: int, c: int, cs: int, k: int)
    requires
        k >= 1,
        r + k <= ys.len() - 1,
    ensures
        forall|m: int|
            k <= m < rspan_from(xs, ys, hs, r, c, cs, k) ==> !border_under(xs, hs, #[trigger] ys[r + m] as int, c, cs),
        r + rspan_from(xs, ys, hs, r, c, cs, k) < ys.len() - 1 ==> border_under(
            xs,
            hs,
            ys[r + rspan_from(xs, ys, hs, r, c, cs, k)] as int,
            c,
            cs,
        ),
    decreases ys.len() - r - k,
{
    if !(r + k >= ys.len() - 1 || border_under(xs, hs, ys[r + k] as int, c, cs)) {
        lemma_rspan_run(xs, ys, hs, r, c, cs, k + 1);
    }
}

/// Merged cells follow missing interior borders: a cell anchored at row
/// `r`, column `c` spreads right across every grid line whose vertical
/// border is missing beside it in that row, up to the first one present;
/// and down across every grid line under which no horizontal border lies
/// beneath any of its columns, up to the first one that has such a border.
pub proof fn lemma_spans_follow_missing_borders(xs: Seq<i64>, ys: Seq<i64>, hs: Seq<Seg>, vs: Seq<Seg>, r: int, c: int)
    requires
        0 <= r < ys.len() - 1,
        0 <= c < xs.len() - 1,
    ensures
        ({
            let cs = cspan_spec(xs, ys, vs, r, c);
            let rs = rspan_spec(xs, ys, hs, vs, r, c);
            &&& forall|m: int| 1 <= m < cs ==> !has_seg_spec(vs, #[trigger] xs[c + m] as int, ys[r] as int, ys[r + 1] as int)
            &&& c + cs < xs.len() - 1 ==> has_seg_spec(vs, xs[c + cs] as int, ys[r] as int, ys[r + 1] as int)
            &&& forall|m: int| 1 <= m < rs ==> !border_under(xs, hs, #[trigger] ys[r + m] as int, c, cs)
            &&& r + rs < ys.len() - 1 ==> border_under(xs, hs, ys[r + rs] as int, c, cs)
        }),
{
    lemma_cspan_run(xs, ys, vs, r, c, 1);
    lemma_rspan_run(xs, ys, hs, r, c, cspan_spec(xs, ys, vs, r, c), 1);
}


/// Grid position `(i, j)` lies within the span of a cell anchored in some
/// row of the grid.
pub open spec fn in_some_cell(xs: Seq<i64>, ys: Seq<i64>, hs: Seq<Seg>, vs: Seq<Seg>, i: int, j: int) -> bool {
    exists|r: int, k: int|
        0 <= r < ys.len() - 1 && 0 <= k < row_anchors(xs, ys, hs, vs, r, xs.len() - 1).len() && {
            let a = #[trigger] row_anchors(xs, ys, hs, vs, r, xs.len() - 1)[k];
            a.0 <= i < a.0 + a.2 && a.1 <= j < a.1 + a.3
        }
}

/// A ruled table as `build_table` makes it: its box runs from the first to
/// the last grid line; it has one row per pair of neighbouring row lines;
/// each cell is anchored at some column of its row, spans at least one row
/// and column within the grid, has the box of the grid lines around its span
/// and the text of the chars whose centre lies in that box; and every grid
/// position lies within the span of some cell.
pub proof fn lemma_ruled_table_shape(
    t: Table,
    chars: Seq<Char>,
    xs: Seq<i64>,
    ys: Seq<i64>,
    hs: Seq<Seg>,
    vs: Seq<Seg>,
)
    requires
        xs.len() >= 2,
        ys.len() >= 2,
        table_is(t, chars, xs, ys, hs, vs),
    ensures
        t.bbox == (BBox {
            x0: half(xs[0] as int),
            y0: half(ys[0] as int),
            x1: half(xs[xs.len() - 1] as int),
            y1: half(ys[ys.len() - 1] as int),
        }),
        t.source == TableSource::Ruled,
        t.rows@.len() == ys.len() - 1,
        forall|r: int, k: int|
            0 <= r < t.rows@.len() && 0 <= k < t.rows@[r]@.len() ==> {
                let a = #[trigger] row_anchors(xs, ys, hs, vs, r, xs.len() - 1)[k];
                let cell = t.rows@[r]@[k];
                &&& a.0 == r && 0 <= a.1 < xs.len() - 1
                &&& 1 <= a.2 && a.0 + a.2 <= ys.len() - 1 && cell.row_span == a.2 as u16
                &&& 1 <= a.3 && a.1 + a.3 <= xs.len() - 1 && cell.col_span == a.3 as u16
                &&& cell.bbox == (BBox {
                    x0: half(xs[a.1] as int),
                    y0: half(ys[r] as int),
                    x1: half(xs[a.1 + a.3] as int),
                    y1: half(ys[r + a.2] as int),
                })
                &&& cell.text@ == cell_text_spec(
                    chars,
                    xs[a.1] as int,
                    ys[r] as int,
                    xs[a.1 + a.3] as int,
                    ys[r + a.2] as int,
                )
            },
        forall|i: int, j: int|
            0 <= i < ys.len() - 1 && 0 <= j < xs.len() - 1 ==> #[trigger] in_some_cell(xs, ys, hs, vs, i, j),
{
    assert forall|r: int, k: int|
        0 <= r < t.rows@.len() && 0 <= k < t.rows@[r]@.len() implies {
            let a = #[trigger] row_anchors(xs, ys, hs, vs, r, xs.len() - 1)[k];
            let cell = t.rows@[r]@[k];
            &&& a.0 == r && 0 <= a.1 < xs.len() - 1
            &&& 1 <= a.2 && a.0 + a.2 <= ys.len() - 1 && cell.row_span == a.2 as u16
            &&& 1 <= a.3 && a.1 + a.3 <= xs.len() - 1 && cell.col_span == a.3 as u16
            &&& cell.bbox == (BBox {
                x0: half(xs[a.1] as int),
                y0: half(ys[r] as int),
                x1: half(xs[a.1 + a.3] as int),
                y1: half(ys[r + a.2] as int),
            })
            &&& cell.text@ == cell_text_spec(
                chars,
                xs[a.1] as int,
                ys[r] as int,
                xs[a.1 + a.3] as int,
                ys[r + a.2] as int,
            )
        } by {
        assert(row_is(t.rows@[r]@, chars, xs, ys, hs, vs, r));
        lemma_cells_within_grid(xs, ys, hs, vs, r, k);
        assert(cell_is(t.rows@[r]@[k], row_anchors(xs, ys, hs, vs, r, xs.len() - 1)[k], chars, xs, ys));
    }
    assert forall|i: int, j: int| 0 <= i < ys.len() - 1 && 0 <= j < xs.len() - 1 implies #[trigger] in_some_cell(
        xs,
        ys,
        hs,
        vs,
        i,
        j,
    ) by {
        lemma_every_grid_position_in_a_cell(xs, ys, hs, vs, i, j);
    }
}

} // verus!
