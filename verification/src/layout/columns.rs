//! Column detection and reading order.
//!
//! Reorders blocks into reading order. The default is top-to-bottom. When the
//! blocks split cleanly into left/right groups with none spanning the middle,
//! they are treated as two columns and ordered column-by-column (left column
//! top-to-bottom, then right). Heuristic but deterministic.

use vstd::prelude::*;

use crate::ir::{BBox, Block};
use crate::layout::sort::{
    insert_pos, lemma_sort_elements, lemma_sort_is_stable_permutation, sort_by_key_spec, sorted_by_key, stable_sort_by_key,
    SortKey,
};

verus! {

/// The box of any block.
pub open spec fn block_bbox(b: Block) -> BBox {
    match b {
        Block::Paragraph(p) => p.bbox,
        Block::Table(t) => t.bbox,
        Block::Image(i) => i.bbox,
    }
}

impl SortKey for Block {
    open spec fn key_spec(&self) -> int {
        block_bbox(*self).y0 as int
    }

    fn key(&self) -> (k: i64) {
        block_top(self) as i64
    }
}

/// The box of a block.
pub fn bbox(b: &Block) -> (r: BBox)
    ensures
        r == block_bbox(*b),
{
    match b {
        Block::Paragraph(p) => p.bbox,
        Block::Table(t) => t.bbox,
        Block::Image(i) => i.bbox,
    }
}

/// The top edge of a block, by which blocks are ordered.
pub fn block_top(b: &Block) -> (r: i32)
    ensures
        r == block_bbox(*b).y0,
{
    bbox(b).y0
}

/// The box clearly straddles the midline of a page of width `w`: it starts
/// left of 45% of the width and ends right of 55%.
pub open spec fn spans_mid(b: BBox, w: int) -> bool {
    20 * b.x0 < 9 * w && 20 * b.x1 > 11 * w
}

/// The box's horizontal centre lies left of the midline.
pub open spec fn left_of_mid(b: BBox, w: int) -> bool {
    b.x0 + b.x1 < w
}

pub open spec fn is_left(w: int) -> spec_fn(Block) -> bool {
    |b: Block| left_of_mid(block_bbox(b), w)
}

pub open spec fn is_right(w: int) -> spec_fn(Block) -> bool {
    |b: Block| !left_of_mid(block_bbox(b), w)
}

/// The page is read as two columns: more than one block, a positive width,
/// no block straddling the midline, and blocks on both sides of it.
pub open spec fn two_columns(blocks: Seq<Block>, w: int) -> bool {
    &&& blocks.len() > 1
    &&& w > 0
    &&& !exists|i: int| 0 <= i < blocks.len() && spans_mid(block_bbox(#[trigger] blocks[i]), w)
    &&& blocks.filter(is_left(w)).len() > 0
    &&& blocks.filter(is_right(w)).len() > 0
}

/// Reading order: two columns, each top to bottom, left column first;
/// otherwise all blocks top to bottom (ties keep their order).
pub open spec fn reading_order_spec(blocks: Seq<Block>, w: int) -> Seq<Block> {
    if two_columns(blocks, w) {
        sort_by_key_spec(blocks.filter(is_left(w))) + sort_by_key_spec(blocks.filter(is_right(w)))
    } else {
        sort_by_key_spec(blocks)
    }
}

fn spans_mid_exec(b: BBox, w: i32) -> (r: bool)
    ensures
        r == spans_mid(b, w as int),
{
    20 * (b.x0 as i64) < 9 * (w as i64) && 20 * (b.x1 as i64) > 11 * (w as i64)
}

fn left_of_mid_exec(b: BBox, w: i32) -> (r: bool)
    ensures
        r == left_of_mid(b, w as int),
{
    (b.x0 as i64) + (b.x1 as i64) < (w as i64)
}

/// Reorder `blocks` into reading order for a page of the given width: two
/// columns, each stably sorted top to bottom, left column first; otherwise
/// all blocks stably sorted top to bottom.
pub fn reading_order(blocks: Vec<Block>, page_width: i32) -> (r: Vec<Block>)
    ensures
        r@ == reading_order_spec(blocks@, page_width as int),
{
    let ghost inp = blocks@;
    let ghost w = page_width as int;
    if blocks.len() <= 1 {
        let r = stable_sort_by_key(blocks);
        return r;
    }
    if page_width > 0 {
        let mut spans = false;
        let mut i: usize = 0;
        while i < blocks.len()
            invariant
                i <= blocks@.len(),
                spans <==> exists|j: int| 0 <= j < i && spans_mid(block_bbox(#[trigger] blocks@[j]), w),
                w == page_width as int,
            decreases blocks@.len() - i,
        {
            if spans_mid_exec(bbox(&blocks[i]), page_width) {
                spans = true;
            }
            i = i + 1;
        }
        if !spans {
            let mut left: Vec<Block> = Vec::new();
            let mut right: Vec<Block> = Vec::new();
            let mut rest = blocks;
            let mut n: usize = 0;
            proof {
                reveal(Seq::filter);
            }
            assert(inp.take(0) =~= Seq::<Block>::empty());
            while rest.len() > 0
                invariant
                    n + rest@.len() == inp.len(),
                    inp.len() <= usize::MAX,
                    rest@ == inp.skip(n as int),
                    left@ == inp.take(n as int).filter(is_left(w)),
                    right@ == inp.take(n as int).filter(is_right(w)),
                    left@.len() == 0 ==> right@ == inp.take(n as int),
                    right@.len() == 0 ==> left@ == inp.take(n as int),
                    w == page_width as int,
                decreases rest@.len(),
            {
                let b = rest.remove(0);
                assert(b == inp[n as int]);
                assert(inp.take(n + 1) =~= inp.take(n as int).push(b));
                proof {
                    inp.take(n as int).lemma_filter_push(b, is_left(w));
                    inp.take(n as int).lemma_filter_push(b, is_right(w));
                }
                if left_of_mid_exec(bbox(&b), page_width) {
                    left.push(b);
                } else {
                    right.push(b);
                }
                n = n + 1;
                assert(rest@ =~= inp.skip(n as int));
            }
            assert(inp.take(n as int) =~= inp);
            if left.len() > 0 && right.len() > 0 {
                let mut l = stable_sort_by_key(left);
                let mut r = stable_sort_by_key(right);
                l.append(&mut r);
                return l;
            }
            // All on one side: single-column ordering of the blocks as they came.
            let mut all = left;
            let mut other = right;
            all.append(&mut other);
            assert(all@ =~= inp);
            return stable_sort_by_key(all);
        }
    }
    stable_sort_by_key(blocks)
}


proof fn lemma_filter_split_multiset(s: Seq<Block>, w: int)
    ensures
        s.filter(is_left(w)).to_multiset().add(s.filter(is_right(w)).to_multiset()) == s.to_multiset(),
    decreases s.len(),
{
    broadcast use vstd::seq_lib::group_to_multiset_ensures;

    if s.len() == 0 {
        assert(s.filter(is_left(w)) =~= Seq::<Block>::empty());
        assert(s.filter(is_right(w)) =~= Seq::<Block>::empty());
        assert(Seq::<Block>::empty().to_multiset().add(Seq::<Block>::empty().to_multiset()) =~= s.to_multiset());
    } else {
        let d = s.drop_last();
        lemma_filter_split_multiset(d, w);
        assert(s =~= d.push(s.last()));
        d.lemma_filter_push(s.last(), is_left(w));
        d.lemma_filter_push(s.last(), is_right(w));
        assert(s.filter(is_left(w)).to_multiset().add(s.filter(is_right(w)).to_multiset()) =~= s.to_multiset());
    }
}

/// No block is lost or repeated: reading order is a permutation of the
/// blocks.
pub proof fn lemma_reading_order_keeps_blocks(blocks: Seq<Block>, w: int)
    ensures
        reading_order_spec(blocks, w).to_multiset() == blocks.to_multiset(),
{
    broadcast use vstd::seq_lib::group_to_multiset_ensures;

    lemma_sort_is_stable_permutation(blocks);
    if two_columns(blocks, w) {
        let l = blocks.filter(is_left(w));
        let r = blocks.filter(is_right(w));
        lemma_sort_is_stable_permutation(l);
        lemma_sort_is_stable_permutation(r);
        vstd::seq_lib::lemma_multiset_commutative(sort_by_key_spec(l), sort_by_key_spec(r));
        lemma_filter_split_multiset(blocks, w);
    }
}

/// Each column reads top to bottom: in the two-column case the left
/// column's blocks (all centred left of the midline) come first, sorted by
/// their tops, then the right column's; otherwise all blocks are sorted by
/// their tops.
pub proof fn lemma_reading_order_top_to_bottom(blocks: Seq<Block>, w: int)
    ensures
        !two_columns(blocks, w) ==> sorted_by_key(reading_order_spec(blocks, w)),
        two_columns(blocks, w) ==> {
            let n = blocks.filter(is_left(w)).len();
            let r = reading_order_spec(blocks, w);
            &&& sorted_by_key(r.take(n as int))
            &&& sorted_by_key(r.skip(n as int))
            &&& forall|i: int| 0 <= i < n ==> left_of_mid(block_bbox(#[trigger] r[i]), w)
            &&& forall|i: int| n <= i < r.len() ==> !left_of_mid(block_bbox(#[trigger] r[i]), w)
        },
{
    lemma_sort_is_stable_permutation(blocks);
    if two_columns(blocks, w) {
        let l = blocks.filter(is_left(w));
        let rt = blocks.filter(is_right(w));
        let sl = sort_by_key_spec(l);
        let sr = sort_by_key_spec(rt);
        lemma_sort_is_stable_permutation(l);
        lemma_sort_is_stable_permutation(rt);
        lemma_sort_elements(l);
        lemma_sort_elements(rt);
        let r = reading_order_spec(blocks, w);
        assert(r.take(l.len() as int) =~= sl);
        assert(r.skip(l.len() as int) =~= sr);
        assert forall|i: int| 0 <= i < l.len() implies left_of_mid(block_bbox(#[trigger] r[i]), w) by {
            assert(r[i] == sl[i]);
            assert(l.contains(sl[i]));
            let j = choose|j: int| 0 <= j < l.len() && l[j] == sl[i];
            blocks.lemma_filter_pred(is_left(w), j);
        }
        assert forall|i: int| l.len() <= i < r.len() implies !left_of_mid(block_bbox(#[trigger] r[i]), w) by {
            assert(r[i] == sr[i - l.len()]);
            assert(rt.contains(sr[i - l.len()]));
            let j = choose|j: int| 0 <= j < rt.len() && rt[j] == sr[i - l.len()];
            blocks.lemma_filter_pred(is_right(w), j);
        }
    }
}


/// Zero or one block comes back unchanged.
pub proof fn lemma_reading_order_small(blocks: Seq<Block>, w: int)
    requires
        blocks.len() <= 1,
    ensures
        reading_order_spec(blocks, w) == blocks,
{
    if blocks.len() == 1 {
        let d = blocks.drop_last();
        assert(d =~= Seq::<Block>::empty());
        assert(sort_by_key_spec(d) =~= Seq::<Block>::empty());
        assert(insert_pos(Seq::<Block>::empty(), blocks.last().key_spec()) == 0);
        assert(sort_by_key_spec(blocks) =~= blocks);
    } else {
        assert(sort_by_key_spec(blocks) =~= blocks);
    }
}

} // verus!
