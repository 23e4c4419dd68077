//! The validation pass over a PDF's object table.
//!
//! A PDF reader can silently skip objects it fails to resolve, which would
//! lose data quietly. This pass records every reference to an object that
//! does not exist as a `MalformedObject` warning, so callers can see what was
//! dropped. Objects are modelled by what the pass reads of them: references,
//! and the values held by arrays, dictionaries and stream dictionaries.

use vstd::prelude::*;
use vstd::string::StringExecFns;

use crate::ir::{Warning, WarningKind};
use crate::text::push_char;

verus! {

/// An object number and generation.
pub type ObjectId = (u32, u16);

/// A PDF object as the validation pass sees it.
#[derive(Debug)]
pub enum PdfObject {
    /// An indirect reference to another object.
    Reference(u32, u16),
    /// An array of objects.
    Array(Vec<PdfObject>),
    /// A dictionary's values, in order.
    Dictionary(Vec<PdfObject>),
    /// A stream's dictionary values, in order (the stream data is not
    /// checked).
    Stream(Vec<PdfObject>),
    /// Any other object.
    Other,
}

/// The decimal digits of `n`.
pub open spec fn decimal_spec(n: nat) -> Seq<char>
    decreases n,
{
    if n < 10 {
        seq![digit_char(n)]
    } else {
        decimal_spec(n / 10).push(digit_char(n % 10))
    }
}

pub open spec fn digit_char(d: nat) -> char {
    (('0' as u32) + d) as char
}

/// The warning text for a reference from `owner` to the missing `target`.
pub open spec fn dangling_message(owner: ObjectId, target: ObjectId) -> Seq<char> {
    "object "@ + decimal_spec(owner.0 as nat) + ":"@ + decimal_spec(owner.1 as nat)
        + " references missing object "@ + decimal_spec(target.0 as nat) + ":"@ + decimal_spec(
        target.1 as nat,
    )
}

/// The warning texts for the references inside `o` (held by object `owner`)
/// to objects not among `ids`, depth first, in order.
pub open spec fn scan_spec(ids: Seq<ObjectId>, owner: ObjectId, o: PdfObject) -> Seq<Seq<char>>
    decreases o,
{
    match o {
        PdfObject::Reference(n, g) => if ids.contains((n, g)) {
            Seq::empty()
        } else {
            seq![dangling_message(owner, (n, g))]
        },
        PdfObject::Array(items) => scan_items(ids, owner, items@, items@.len() as int),
        PdfObject::Dictionary(items) => scan_items(ids, owner, items@, items@.len() as int),
        PdfObject::Stream(items) => scan_items(ids, owner, items@, items@.len() as int),
        PdfObject::Other => Seq::empty(),
    }
}

/// `scan_spec` over the first `n` of `items`, concatenated.
pub open spec fn scan_items(ids: Seq<ObjectId>, owner: ObjectId, items: Seq<PdfObject>, n: int) -> Seq<Seq<char>>
    decreases items, n,
{
    if n <= 0 || n > items.len() {
        Seq::empty()
    } else {
        scan_items(ids, owner, items, n - 1) + scan_spec(ids, owner, items[n - 1])
    }
}

/// The warning texts of a whole object table, object by object in order.
pub open spec fn validate_spec(objects: Seq<(ObjectId, PdfObject)>, n: int) -> Seq<Seq<char>>
    decreases n,
{
    if n <= 0 || n > objects.len() {
        Seq::empty()
    } else {
        validate_spec(objects, n - 1) + scan_spec(
            objects.map_values(|e: (ObjectId, PdfObject)| e.0),
            objects[n - 1].0,
            objects[n - 1].1,
        )
    }
}

/// Every warning is a document-level `MalformedObject` warning.
pub open spec fn document_level(ws: Seq<Warning>) -> bool {
    forall|i: int| 0 <= i < ws.len() ==> (#[trigger] ws[i]).page is None && ws[i].kind == WarningKind::MalformedObject
}

pub open spec fn details(ws: Seq<Warning>) -> Seq<Seq<char>> {
    ws.map_values(|w: Warning| w.detail@)
}

/// `n` in decimal.
fn decimal(n: u32) -> (s: String)
    ensures
        s@ == decimal_spec(n as nat),
    decreases n,
{
    if n < 10 {
        let mut s = String::new();
        push_char(&mut s, char_of_digit(n));
        assert(s@ =~= seq![digit_char(n as nat)]);
        s
    } else {
        let mut s = decimal(n / 10);
        push_char(&mut s, char_of_digit(n % 10));
        s
    }
}

fn char_of_digit(d: u32) -> (c: char)
    requires
        d < 10,
    ensures
        c == digit_char(d as nat),
{
    match d {
        0 => '0',
        1 => '1',
        2 => '2',
        3 => '3',
        4 => '4',
        5 => '5',
        6 => '6',
        7 => '7',
        8 => '8',
        _ => '9',
    }
}

/// `a` comes before `b` in object-id order.
pub open spec fn id_before(a: ObjectId, b: ObjectId) -> bool {
    a.0 < b.0 || (a.0 == b.0 && a.1 < b.1)
}

/// The ids ascend strictly.
pub open spec fn ascending(ids: Seq<ObjectId>) -> bool {
    forall|i: int, j: int| 0 <= i < j < ids.len() ==> id_before(#[trigger] ids[i], #[trigger] ids[j])
}

fn before_exec(a: ObjectId, b: ObjectId) -> (r: bool)
    ensures
        r == id_before(a, b),
{
    a.0 < b.0 || (a.0 == b.0 && a.1 < b.1)
}

/// The ids of an object table, searched by bisection when they ascend (as
/// a table in object-id order does) and one by one otherwise.
pub struct IdTable {
    ids: Vec<ObjectId>,
    sorted: bool,
}

impl IdTable {
    #[verifier::type_invariant]
    spec fn sorted_when_flagged(self) -> bool {
        self.sorted ==> ascending(self.ids@)
    }

    /// The ids held.
    pub closed spec fn ids(&self) -> Seq<ObjectId> {
        self.ids@
    }

    /// A table of `ids`.
    pub fn new(ids: Vec<ObjectId>) -> (t: IdTable)
        ensures
            t.ids() == ids@,
    {
        let mut sorted = true;
        let mut i: usize = 1;
        while i < ids.len()
            invariant
                1 <= i,
                sorted ==> forall|a: int, b: int| 0 <= a < b < i && b < ids@.len() ==> id_before(#[trigger] ids@[a], #[trigger] ids@[b]),
            decreases ids@.len() - i,
        {
            if !before_exec(ids[i - 1], ids[i]) {
                sorted = false;
            }
            proof {
                if sorted {
                    assert forall|a: int, b: int| 0 <= a < b < i + 1 && b < ids@.len() implies id_before(#[trigger] ids@[a], #[trigger] ids@[b]) by {
                        if b == i as int && a < i - 1 {
                            assert(id_before(ids@[a], ids@[i - 1]));
                        }
                    }
                }
            }
            i = i + 1;
        }
        IdTable { ids, sorted }
    }

    /// Does the table hold `id`?
    pub fn contains(&self, id: ObjectId) -> (b: bool)
        ensures
            b == self.ids().contains(id),
    {
        proof {
            use_type_invariant(self);
        }
        let ids = &self.ids;
        assert(self.ids() == ids@);
        if self.sorted {
            let mut lo: usize = 0;
            let mut hi: usize = ids.len();
            while lo < hi
                invariant
                    0 <= lo <= hi <= ids@.len(),
                    self.ids() == ids@,
                    ascending(ids@),
                    forall|k: int| 0 <= k < lo ==> id_before(#[trigger] ids@[k], id),
                    forall|k: int| hi <= k < ids@.len() ==> id_before(id, #[trigger] ids@[k]),
                decreases hi - lo,
            {
                let mid = lo + (hi - lo) / 2;
                let m = ids[mid];
                if m.0 == id.0 && m.1 == id.1 {
                    assert(ids@[mid as int] == id);
                    assert(ids@.contains(id));
                    return true;
                } else if before_exec(m, id) {
                    assert forall|k: int| 0 <= k < mid + 1 implies id_before(#[trigger] ids@[k], id) by {
                        if k < mid {
                            assert(id_before(ids@[k], ids@[mid as int]));
                        }
                    }
                    lo = mid + 1;
                } else {
                    assert forall|k: int| mid <= k < ids@.len() implies id_before(id, #[trigger] ids@[k]) by {
                        if k > mid {
                            assert(id_before(ids@[mid as int], ids@[k]));
                        }
                    }
                    hi = mid;
                }
            }
            assert forall|k: int| 0 <= k < ids@.len() implies ids@[k] != id by {
                if k < lo {
                    assert(id_before(ids@[k], id));
                } else {
                    assert(id_before(id, ids@[k]));
                }
            }
            false
        } else {
            let mut i: usize = 0;
            while i < ids.len()
                invariant
                    i <= ids@.len(),
                    self.ids() == ids@,
                    forall|j: int| 0 <= j < i ==> ids@[j] != id,
                decreases ids@.len() - i,
            {
                if ids[i].0 == id.0 && ids[i].1 == id.1 {
                    assert(ids@[i as int] == id);
                    assert(ids@.contains(id));
                    return true;
                }
                i = i + 1;
            }
            false
        }
    }
}

fn dangling_warning(owner: ObjectId, target: ObjectId) -> (w: Warning)
    ensures
        w.page is None,
        w.kind == WarningKind::MalformedObject,
        w.detail@ == dangling_message(owner, target),
{
    let mut m = "object ".to_owned();
    m.append(decimal(owner.0).as_str());
    m.append(":");
    m.append(decimal(owner.1 as u32).as_str());
    m.append(" references missing object ");
    m.append(decimal(target.0).as_str());
    m.append(":");
    m.append(decimal(target.1 as u32).as_str());
    Warning { page: None, kind: WarningKind::MalformedObject, detail: m }
}

/// Record a warning for every reference inside `obj` to an object not among
/// `ids`.
pub fn scan(ids: &IdTable, owner: ObjectId, obj: &PdfObject, out: &mut Vec<Warning>)
    ensures
        final(out)@.len() >= old(out)@.len(),
        final(out)@.take(old(out)@.len() as int) == old(out)@,
        document_level(final(out)@.skip(old(out)@.len() as int)),
        details(final(out)@.skip(old(out)@.len() as int)) == scan_spec(ids.ids(), owner, *obj),
    decreases obj,
{
    match obj {
        PdfObject::Reference(n, g) => {
            if !ids.contains((*n, *g)) {
                out.push(dangling_warning(owner, (*n, *g)));
                assert(out@.skip(old(out)@.len() as int) =~= seq![out@.last()]);
                assert(out@.take(old(out)@.len() as int) =~= old(out)@);
                assert(details(out@.skip(old(out)@.len() as int)) =~= seq![dangling_message(owner, (*n, *g))]);
            } else {
                assert(out@.skip(old(out)@.len() as int) =~= Seq::<Warning>::empty());
                assert(out@.take(old(out)@.len() as int) =~= old(out)@);
            }
        },
        PdfObject::Array(items) => scan_all(ids, owner, items, out),
        PdfObject::Dictionary(items) => scan_all(ids, owner, items, out),
        PdfObject::Stream(items) => scan_all(ids, owner, items, out),
        PdfObject::Other => {
            assert(out@.skip(old(out)@.len() as int) =~= Seq::<Warning>::empty());
            assert(out@.take(old(out)@.len() as int) =~= old(out)@);
        },
    }
}

fn scan_all(ids: &IdTable, owner: ObjectId, items: &Vec<PdfObject>, out: &mut Vec<Warning>)
    ensures
        final(out)@.len() >= old(out)@.len(),
        final(out)@.take(old(out)@.len() as int) == old(out)@,
        document_level(final(out)@.skip(old(out)@.len() as int)),
        details(final(out)@.skip(old(out)@.len() as int)) == scan_items(ids.ids(), owner, items@, items@.len() as int),
    decreases items,
{
    let ghost start = out@;
    let ghost n0 = out@.len() as int;
    let mut i: usize = 0;
    assert(out@.skip(n0) =~= Seq::<Warning>::empty());
    assert(out@.take(n0) =~= start);
    while i < items.len()
        invariant
            i <= items@.len(),
            n0 == start.len(),
            out@.len() >= n0,
            out@.take(n0) == start,
            document_level(out@.skip(n0)),
            details(out@.skip(n0)) == scan_items(ids.ids(), owner, items@, i as int),
        decreases items@.len() - i,
    {
        let ghost before = out@;
        assert(decreases_to!(items => items@[i as int]));
        scan(ids, owner, &items[i], out);
        proof {
            let b = before.len() as int;
            assert(out@.take(n0) =~= before.take(b).take(n0));
            assert(out@.skip(n0) =~= before.skip(n0) + out@.skip(b));
            assert forall|j: int| 0 <= j < out@.skip(n0).len() implies (#[trigger] out@.skip(n0)[j]).page is None
                && out@.skip(n0)[j].kind == WarningKind::MalformedObject by {
                if j < before.skip(n0).len() {
                    assert(out@.skip(n0)[j] == before.skip(n0)[j]);
                } else {
                    assert(out@.skip(n0)[j] == out@.skip(b)[j - before.skip(n0).len()]);
                }
            }
            assert(details(out@.skip(n0)) =~= details(before.skip(n0)) + details(out@.skip(b)));
        }
        i = i + 1;
    }
}

/// The validation pass: a document-level `MalformedObject` warning for every
/// reference to a missing object, object by object in the table's order.
pub fn validate(objects: &Vec<(ObjectId, PdfObject)>) -> (ws: Vec<Warning>)
    ensures
        document_level(ws@),
        details(ws@) == validate_spec(objects@, objects@.len() as int),
{
    let ghost idv = objects@.map_values(|e: (ObjectId, PdfObject)| e.0);
    let mut ids: Vec<ObjectId> = Vec::new();
    let mut k: usize = 0;
    while k < objects.len()
        invariant
            k <= objects@.len(),
            idv == objects@.map_values(|e: (ObjectId, PdfObject)| e.0),
            ids@ == idv.take(k as int),
        decreases objects@.len() - k,
    {
        ids.push(objects[k].0);
        k = k + 1;
        assert(ids@ =~= idv.take(k as int));
    }
    assert(ids@ =~= idv);
    let ids = IdTable::new(ids);
    let mut ws: Vec<Warning> = Vec::new();
    let mut i: usize = 0;
    assert(details(ws@) =~= Seq::<Seq<char>>::empty());
    while i < objects.len()
        invariant
            i <= objects@.len(),
            ids.ids() == objects@.map_values(|e: (ObjectId, PdfObject)| e.0),
            document_level(ws@),
            details(ws@) == validate_spec(objects@, i as int),
        decreases objects@.len() - i,
    {
        let (id, obj) = &objects[i];
        let ghost before = ws@;
        scan(&ids, *id, obj, &mut ws);
        proof {
            let b = before.len() as int;
            assert(ws@ =~= before + ws@.skip(b));
            assert forall|j: int| 0 <= j < ws@.len() implies (#[trigger] ws@[j]).page is None
                && ws@[j].kind == WarningKind::MalformedObject by {
                if j >= b {
                    assert(ws@[j] == ws@.skip(b)[j - b]);
                } else {
                    assert(ws@[j] == before[j]);
                }
            }
            assert(details(ws@) =~= details(before) + details(ws@.skip(b)));
        }
        i = i + 1;
    }
    ws
}

} // verus!
