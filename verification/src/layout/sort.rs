//! A stable sort by an integer key, used to put layout elements in order.

use vstd::prelude::*;

verus! {

/// Something ordered by an integer key.
pub trait SortKey: Sized {
    spec fn key_spec(&self) -> int;

    fn key(&self) -> (k: i64)
        ensures
            k == self.key_spec(),
    ;
}

/// Has the element key `k`?
pub open spec fn key_is<T: SortKey>(k: int) -> spec_fn(T) -> bool {
    |x: T| x.key_spec() == k
}

/// The elements whose key is `k`, in order.
pub open spec fn with_key<T: SortKey>(s: Seq<T>, k: int) -> Seq<T> {
    s.filter(key_is(k))
}

pub open spec fn sorted_by_key<T: SortKey>(s: Seq<T>) -> bool {
    forall|i: int, j: int| 0 <= i < j < s.len() ==> s[i].key_spec() <= s[j].key_spec()
}

/// `out` is `inp` stably sorted by key: keys ascend, and the elements of each
/// key keep their order.
pub open spec fn stably_sorted<T: SortKey>(out: Seq<T>, inp: Seq<T>) -> bool {
    &&& sorted_by_key(out)
    &&& forall|k: int| #[trigger] with_key(out, k) == with_key(inp, k)
}

/// Where an element of key `k` goes in `t`: before the first element whose
/// key exceeds `k` (after all equal keys, which keeps the sort stable).
pub open spec fn insert_pos<T: SortKey>(t: Seq<T>, k: int) -> int
    decreases t.len(),
{
    if t.len() == 0 {
        0
    } else if t[0].key_spec() > k {
        0
    } else {
        1 + insert_pos(t.drop_first(), k)
    }
}

/// `x` inserted into `t` at its place.
pub open spec fn insert_by_key<T: SortKey>(t: Seq<T>, x: T) -> Seq<T> {
    let p = insert_pos(t, x.key_spec());
    t.take(p) + seq![x] + t.skip(p)
}

/// `s` sorted by key, equal keys in their input order (insertion sort).
pub open spec fn sort_by_key_spec<T: SortKey>(s: Seq<T>) -> Seq<T>
    decreases s.len(),
{
    if s.len() == 0 {
        Seq::empty()
    } else {
        insert_by_key(sort_by_key_spec(s.drop_last()), s.last())
    }
}

proof fn lemma_insert_pos<T: SortKey>(t: Seq<T>, k: int, p: int)
    requires
        0 <= p <= t.len(),
        forall|i: int| 0 <= i < p ==> (#[trigger] t[i]).key_spec() <= k,
        p < t.len() ==> t[p].key_spec() > k,
    ensures
        insert_pos(t, k) == p,
    decreases t.len(),
{
    if t.len() > 0 && p > 0 {
        assert(t[0].key_spec() <= k);
        assert forall|i: int| 0 <= i < p - 1 implies (#[trigger] t.drop_first()[i]).key_spec() <= k by {
            assert(t.drop_first()[i] == t[i + 1]);
        }
        lemma_insert_pos(t.drop_first(), k, p - 1);
    }
}

proof fn lemma_insert_pos_bound<T: SortKey>(t: Seq<T>, k: int)
    ensures
        0 <= insert_pos(t, k) <= t.len(),
    decreases t.len(),
{
    if t.len() > 0 {
        lemma_insert_pos_bound(t.drop_first(), k);
    }
}

/// Sorting keeps the length, and every element of the result comes from the
/// input.
pub proof fn lemma_sort_elements<T: SortKey>(s: Seq<T>)
    ensures
        sort_by_key_spec(s).len() == s.len(),
        forall|i: int| 0 <= i < s.len() ==> s.contains(#[trigger] sort_by_key_spec(s)[i]),
    decreases s.len(),
{
    if s.len() > 0 {
        let d = s.drop_last();
        lemma_sort_elements(d);
        let t = sort_by_key_spec(d);
        let p = insert_pos(t, s.last().key_spec());
        lemma_insert_pos_bound(t, s.last().key_spec());
        let r = sort_by_key_spec(s);
        assert(r == t.take(p) + seq![s.last()] + t.skip(p));
        assert forall|i: int| 0 <= i < s.len() implies s.contains(#[trigger] r[i]) by {
            if i < p {
                assert(r[i] == t[i]);
                let j = choose|j: int| 0 <= j < d.len() && d[j] == t[i];
                assert(s[j] == d[j]);
            } else if i == p {
                assert(s[s.len() - 1] == r[i]);
            } else {
                assert(r[i] == t[i - 1]);
                let j = choose|j: int| 0 <= j < d.len() && d[j] == t[i - 1];
                assert(s[j] == d[j]);
            }
        }
    }
}

proof fn lemma_filter_all_out<T: SortKey>(s: Seq<T>, k: int)
    requires
        forall|i: int| 0 <= i < s.len() ==> (#[trigger] s[i]).key_spec() != k,
    ensures
        with_key(s, k) == Seq::<T>::empty(),
    decreases s.len(),
{
    reveal(Seq::filter);
    if s.len() > 0 {
        lemma_filter_all_out(s.drop_last(), k);
    }
}

proof fn lemma_filter_single<T: SortKey>(x: T, k: int)
    ensures
        with_key(seq![x], k) == if x.key_spec() == k {
            seq![x]
        } else {
            Seq::<T>::empty()
        },
{
    reveal(Seq::filter);
    Seq::<T>::empty().lemma_filter_push(x, key_is(k));
    assert(Seq::<T>::empty().push(x) =~= seq![x]);
    assert(Seq::<T>::empty().filter(key_is(k)) =~= Seq::<T>::empty());
}

proof fn lemma_insert_keeps_keys<T: SortKey>(t: Seq<T>, p: int, x: T, k: int)
    requires
        0 <= p <= t.len(),
        forall|i: int| p <= i < t.len() ==> (#[trigger] t[i]).key_spec() > x.key_spec(),
    ensures
        with_key(t.take(p) + seq![x] + t.skip(p), k) == with_key(t.push(x), k),
{
    let f = key_is::<T>(k);
    let a = t.take(p);
    let b = t.skip(p);
    assert(t =~= a + b);
    Seq::filter_distributes_over_add(a + seq![x], b, f);
    Seq::filter_distributes_over_add(a, seq![x], f);
    Seq::filter_distributes_over_add(a, b, f);
    t.lemma_filter_push(x, f);
    lemma_filter_single(x, k);
    if k == x.key_spec() {
        assert forall|i: int| 0 <= i < b.len() implies (#[trigger] b[i]).key_spec() != k by {
            assert(b[i] == t[p + i]);
        }
        lemma_filter_all_out(b, k);
        assert(a.filter(f) + seq![x] + b.filter(f) =~= a.filter(f) + b.filter(f) + seq![x]);
        assert((a.filter(f) + b.filter(f)).push(x) =~= a.filter(f) + b.filter(f) + seq![x]);
    } else {
        assert(a.filter(f) + Seq::<T>::empty() + b.filter(f) =~= a.filter(f) + b.filter(f));
    }
}

proof fn lemma_insert_pos_splits<T: SortKey>(t: Seq<T>, k: int)
    requires
        sorted_by_key(t),
    ensures
        forall|i: int| 0 <= i < insert_pos(t, k) ==> (#[trigger] t[i]).key_spec() <= k,
        forall|i: int| insert_pos(t, k) <= i < t.len() ==> (#[trigger] t[i]).key_spec() > k,
    decreases t.len(),
{
    lemma_insert_pos_bound(t, k);
    if t.len() > 0 {
        let d = t.drop_first();
        assert(sorted_by_key(d)) by {
            assert forall|i: int, j: int| 0 <= i < j < d.len() implies d[i].key_spec() <= d[j].key_spec() by {
                assert(d[i] == t[i + 1] && d[j] == t[j + 1]);
            }
        }
        lemma_insert_pos_splits(d, k);
        if t[0].key_spec() > k {
            assert forall|i: int| 0 <= i < t.len() implies (#[trigger] t[i]).key_spec() > k by {
                if i > 0 {
                    assert(t[0].key_spec() <= t[i].key_spec());
                }
            }
        } else {
            assert forall|i: int| 0 <= i < insert_pos(t, k) implies (#[trigger] t[i]).key_spec() <= k by {
                if i > 0 {
                    assert(t[i] == d[i - 1]);
                }
            }
            assert forall|i: int| insert_pos(t, k) <= i < t.len() implies (#[trigger] t[i]).key_spec() > k by {
                assert(t[i] == d[i - 1]);
            }
        }
    }
}

/// The sort is a stable sort: the result ascends by key, keeps the elements
/// of each key in their input order, and holds exactly the input's elements.
pub proof fn lemma_sort_is_stable_permutation<T: SortKey>(s: Seq<T>)
    ensures
        sorted_by_key(sort_by_key_spec(s)),
        forall|k: int| #[trigger] with_key(sort_by_key_spec(s), k) == with_key(s, k),
        sort_by_key_spec(s).to_multiset() == s.to_multiset(),
    decreases s.len(),
{
    broadcast use vstd::seq_lib::group_to_multiset_ensures;

    if s.len() == 0 {
        assert(sort_by_key_spec(s) =~= s);
    } else {
        let d = s.drop_last();
        let x = s.last();
        lemma_sort_is_stable_permutation(d);
        let t = sort_by_key_spec(d);
        let p = insert_pos(t, x.key_spec());
        lemma_insert_pos_bound(t, x.key_spec());
        lemma_insert_pos_splits(t, x.key_spec());
        let r = sort_by_key_spec(s);
        assert(r == t.take(p) + seq![x] + t.skip(p));
        assert(s =~= d.push(x));
        assert forall|i: int, j: int| 0 <= i < j < r.len() implies r[i].key_spec() <= r[j].key_spec() by {
            if j < p {
                assert(r[i] == t[i] && r[j] == t[j]);
            } else if j == p {
                if i < p {
                    assert(r[i] == t[i]);
                }
            } else if i < p {
                assert(r[i] == t[i] && r[j] == t[j - 1]);
            } else if i == p {
                assert(r[j] == t[j - 1]);
            } else {
                assert(r[i] == t[i - 1] && r[j] == t[j - 1]);
            }
        }
        assert forall|k: int| #[trigger] with_key(r, k) == with_key(s, k) by {
            lemma_insert_keeps_keys(t, p, x, k);
            assert(with_key(t, k) == with_key(d, k));
            t.lemma_filter_push(x, key_is(k));
            d.lemma_filter_push(x, key_is(k));
        }
        assert(r =~= t.insert(p, x));
        vstd::seq_lib::to_multiset_insert(t, p, x);
    }
}

/// `v` stably sorted by key (insertion sort).
pub fn stable_sort_by_key<T: SortKey>(v: Vec<T>) -> (r: Vec<T>)
    ensures
        r@ == sort_by_key_spec(v@),
        stably_sorted(r@, v@),
        r@.len() == v@.len(),
{
    let ghost inp = v@;
    let total = v.len();
    let mut v = v;
    let mut rev: Vec<T> = Vec::new();
    // Take the elements off the back, then insert them front to back.
    while v.len() > 0
        invariant
            rev@.len() + v@.len() == inp.len(),
            v@ == inp.take(v@.len() as int),
            forall|i: int| 0 <= i < rev@.len() ==> #[trigger] rev@[i] == inp[inp.len() - 1 - i],
        decreases v@.len(),
    {
        let x = v.pop().unwrap();
        rev.push(x);
        assert(v@ =~= inp.take(v@.len() as int));
    }
    let mut out: Vec<T> = Vec::new();
    let mut n: usize = 0;
    assert(inp.take(0) =~= Seq::<T>::empty());
    while rev.len() > 0
        invariant
            n + rev@.len() == inp.len(),
            inp.len() == total,
            forall|i: int| 0 <= i < rev@.len() ==> #[trigger] rev@[i] == inp[inp.len() - 1 - i],
            stably_sorted(out@, inp.take(n as int)),
            out@.len() == n,
            out@ == sort_by_key_spec(inp.take(n as int)),
        decreases rev@.len(),
    {
        let x = rev.pop().unwrap();
        assert(x == inp[n as int]);
        let kx = x.key();
        let mut p: usize = 0;
        while p < out.len() && out[p].key() <= kx
            invariant
                p <= out@.len(),
                kx == x.key_spec(),
                sorted_by_key(out@),
                forall|i: int| 0 <= i < p ==> (#[trigger] out@[i]).key_spec() <= x.key_spec(),
            decreases out@.len() - p,
        {
            p = p + 1;
        }
        let ghost t = out@;
        assert forall|i: int| p <= i < t.len() implies (#[trigger] t[i]).key_spec() > x.key_spec() by {
            assert(t[p as int].key_spec() > x.key_spec());
            assert(t[p as int].key_spec() <= t[i].key_spec());
        }
        proof {
            lemma_insert_pos(t, x.key_spec(), p as int);
        }
        out.insert(p, x);
        assert(out@ =~= t.take(p as int) + seq![x] + t.skip(p as int));
        assert(inp.take(n + 1) =~= inp.take(n as int).push(x));
        assert(inp.take(n + 1).drop_last() =~= inp.take(n as int));
        assert forall|k: int| #[trigger] with_key(out@, k) == with_key(inp.take(n + 1), k) by {
            lemma_insert_keeps_keys(t, p as int, x, k);
            assert(with_key(t, k) == with_key(inp.take(n as int), k));
            inp.take(n as int).lemma_filter_push(x, key_is(k));
            t.lemma_filter_push(x, key_is(k));
        }
        n = n + 1;
    }
    assert(inp.take(n as int) =~= inp);
    out
}

} // verus!
