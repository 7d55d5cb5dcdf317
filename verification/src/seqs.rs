//! Sequence-level specification helpers: sums over sequences, sortedness,
//! and a verified stable insertion sort for fixed-point values.

use vstd::prelude::*;
use crate::fx::fx_ok;

verus! {

/// Sum of all elements of the sequence, as a mathematical integer.
pub open spec fn sum_vals(s: Seq<i64>) -> int
    decreases s.len(),
{
    if s.len() == 0 {
        0
    } else {
        sum_vals(s.drop_last()) + s.last()
    }
}

/// Peeling one element off a prefix sum.
pub proof fn lemma_sum_vals_take(s: Seq<i64>, i: int)
    requires
        0 <= i < s.len(),
    ensures
        sum_vals(s.take(i + 1)) == sum_vals(s.take(i)) + s[i],
{
    assert(s.take(i + 1).drop_last() =~= s.take(i));
    assert(s.take(i + 1).last() == s[i]);
}

/// A sum of elements bounded by `b` in magnitude is bounded by `len * b`.
pub proof fn lemma_sum_vals_bound(s: Seq<i64>, b: int)
    requires
        b >= 0,
        forall|i: int| 0 <= i < s.len() ==> -b <= #[trigger] s[i] <= b,
    ensures
        -(s.len() * b) <= sum_vals(s) <= s.len() * b,
    decreases s.len(),
{
    if s.len() == 0 {
    } else {
        assert(forall|i: int| 0 <= i < s.drop_last().len() ==> -b <= #[trigger] s.drop_last()[i] <= b);
        lemma_sum_vals_bound(s.drop_last(), b);
        assert((s.len() - 1) * b + b == s.len() * b) by (nonlinear_arith);
    }
}

/// The sequence is in nondecreasing order.
pub open spec fn sorted(s: Seq<i64>) -> bool {
    forall|i: int, j: int| 0 <= i < j < s.len() ==> s[i] <= s[j]
}

/// Insert `x` into `t` after every element that is `<= x` (the position a
/// stable insertion sort uses).
pub open spec fn insert_sorted(t: Seq<i64>, x: i64) -> Seq<i64>
    decreases t.len(),
{
    if t.len() == 0 {
        seq![x]
    } else if t.last() <= x {
        t.push(x)
    } else {
        insert_sorted(t.drop_last(), x).push(t.last())
    }
}

/// The nondecreasing rearrangement of `s`: stable insertion sort, element by
/// element.
pub open spec fn sort_vals(s: Seq<i64>) -> Seq<i64>
    decreases s.len(),
{
    if s.len() == 0 {
        Seq::empty()
    } else {
        insert_sorted(sort_vals(s.drop_last()), s.last())
    }
}

/// Unfolding one step of [`sort_vals`] over a growing prefix.
pub proof fn lemma_sort_vals_take(s: Seq<i64>, i: int)
    requires
        0 <= i < s.len(),
    ensures
        sort_vals(s.take(i + 1)) == insert_sorted(sort_vals(s.take(i)), s[i]),
{
    assert(s.take(i + 1).drop_last() =~= s.take(i));
    assert(s.take(i + 1).last() == s[i]);
}

/// [`insert_sorted`] keeps the sequence sorted, grows it by one, and adds
/// exactly `x` to its contents.
pub proof fn lemma_insert_sorted_props(t: Seq<i64>, x: i64)
    requires
        sorted(t),
    ensures
        sorted(insert_sorted(t, x)),
        insert_sorted(t, x).len() == t.len() + 1,
        insert_sorted(t, x).to_multiset() == t.to_multiset().insert(x),
    decreases t.len(),
{
    broadcast use vstd::seq_lib::group_to_multiset_ensures;

    if t.len() == 0 {
        assert(insert_sorted(t, x) =~= Seq::empty().push(x));
        assert(t =~= Seq::<i64>::empty());
        assert(Seq::<i64>::empty().push(x).to_multiset() == Seq::<i64>::empty().to_multiset().insert(x));
    } else if t.last() <= x {
        assert(sorted(t.push(x)));
    } else {
        let d = t.drop_last();
        assert(sorted(d));
        lemma_insert_sorted_props(d, x);
        let u = insert_sorted(d, x);
        // every element of u is either x or an element of d, hence <= t.last()
        assert forall|k: int| 0 <= k < u.len() implies u[k] <= t.last() by {
            assert(u.to_multiset().count(u[k]) > 0);
            assert(u.to_multiset() == d.to_multiset().insert(x));
            if u[k] != x {
                assert(d.to_multiset().count(u[k]) > 0);
                assert(d.contains(u[k]));
                let j = choose|j: int| 0 <= j < d.len() && d[j] == u[k];
                assert(t[j] <= t.last());
            }
        }
        assert(sorted(u.push(t.last())));
        assert(t =~= d.push(t.last()));
        assert(t.to_multiset() == d.to_multiset().insert(t.last()));
        assert(u.push(t.last()).to_multiset() == u.to_multiset().insert(t.last()));
        assert(d.to_multiset().insert(x).insert(t.last()) =~= d.to_multiset().insert(t.last()).insert(x));
    }
}

/// [`sort_vals`] returns a sorted sequence with the same contents.
pub proof fn lemma_sort_vals_props(s: Seq<i64>)
    ensures
        sorted(sort_vals(s)),
        sort_vals(s).len() == s.len(),
        sort_vals(s).to_multiset() == s.to_multiset(),
    decreases s.len(),
{
    broadcast use vstd::seq_lib::group_to_multiset_ensures;

    if s.len() == 0 {
        assert(sort_vals(s) =~= Seq::<i64>::empty());
    } else {
        let d = s.drop_last();
        lemma_sort_vals_props(d);
        lemma_insert_sorted_props(sort_vals(d), s.last());
        assert(s =~= d.push(s.last()));
        assert(s.to_multiset() == d.to_multiset().insert(s.last()));
    }
}

/// Every element of the sorted sequence occurs in the original.
pub proof fn lemma_sort_vals_elems(s: Seq<i64>)
    ensures
        forall|k: int| 0 <= k < sort_vals(s).len() ==> s.contains(#[trigger] sort_vals(s)[k]),
{
    broadcast use vstd::seq_lib::group_to_multiset_ensures;

    lemma_sort_vals_props(s);
    assert forall|k: int| 0 <= k < sort_vals(s).len() implies s.contains(#[trigger] sort_vals(s)[k]) by {
        assert(sort_vals(s).to_multiset().count(sort_vals(s)[k]) > 0);
        assert(s.to_multiset().count(sort_vals(s)[k]) > 0);
    }
}

/// Sortedness of the in-range property carries over to the sorted copy.
pub proof fn lemma_sort_vals_fx_ok(s: Seq<i64>)
    requires
        forall|i: int| 0 <= i < s.len() ==> #[trigger] fx_ok(s[i] as int),
    ensures
        forall|i: int| 0 <= i < sort_vals(s).len() ==> #[trigger] fx_ok(sort_vals(s)[i] as int),
{
    lemma_sort_vals_elems(s);
    assert forall|i: int| 0 <= i < sort_vals(s).len() implies #[trigger] fx_ok(sort_vals(s)[i] as int) by {
        assert(s.contains(sort_vals(s)[i]));
        let j = choose|j: int| 0 <= j < s.len() && s[j] == sort_vals(s)[i];
        assert(fx_ok(s[j] as int));
    }
}

/// If `k` is the first position whose element exceeds `x` in a sorted
/// sequence, then [`insert_sorted`] places `x` exactly there.
pub proof fn lemma_insert_sorted_at(t: Seq<i64>, x: i64, k: int)
    requires
        sorted(t),
        0 <= k <= t.len(),
        k > 0 ==> t[k - 1] <= x,
        forall|i: int| k <= i < t.len() ==> #[trigger] t[i] > x,
    ensures
        insert_sorted(t, x) == t.insert(k, x),
    decreases t.len(),
{
    if t.len() == 0 {
        assert(insert_sorted(t, x) =~= t.insert(0, x));
    } else if t.last() <= x {
        assert(k == t.len());
        assert(t.push(x) =~= t.insert(t.len() as int, x));
    } else {
        assert(k < t.len());
        let d = t.drop_last();
        assert(sorted(d));
        assert(forall|i: int| k <= i < d.len() ==> #[trigger] d[i] > x);
        lemma_insert_sorted_at(d, x, k);
        assert(insert_sorted(d, x).push(t.last()) =~= t.insert(k, x));
    }
}

/// Return a copy of `v` rearranged into nondecreasing order (stable
/// insertion sort).
pub fn sorted_copy(v: &Vec<i64>) -> (r: Vec<i64>)
    ensures
        r@ == sort_vals(v@),
        sorted(r@),
        r@.len() == v@.len(),
{
    let mut r: Vec<i64> = Vec::new();
    let n: usize = v.len();
    let mut i: usize = 0;
    proof {
        assert(v@.take(0) =~= Seq::<i64>::empty());
    }
    while i < n
        invariant
            n == v@.len(),
            0 <= i <= n,
            r@ == sort_vals(v@.take(i as int)),
            sorted(r@),
            r@.len() == i,
        decreases n - i,
    {
        let x: i64 = v[i];
        let mut k: usize = r.len();
        while k > 0 && r[k - 1] > x
            invariant
                0 <= k <= r@.len(),
                forall|j: int| k <= j < r@.len() ==> #[trigger] r@[j] > x,
            decreases k,
        {
            k = k - 1;
        }
        proof {
            lemma_insert_sorted_at(r@, x, k as int);
            lemma_sort_vals_take(v@, i as int);
            lemma_sort_vals_props(v@.take(i as int));
            lemma_insert_sorted_props(r@, x);
        }
        r.insert(k, x);
        i = i + 1;
    }
    proof {
        assert(v@.take(n as int) =~= v@);
        lemma_sort_vals_props(v@);
    }
    r
}

/// The triple sequence is ordered by its first component (timestamps).
pub open spec fn sorted_ts(s: Seq<(i64, i64, i64)>) -> bool {
    forall|i: int, j: int| 0 <= i < j < s.len() ==> (#[trigger] s[i]).0 <= (#[trigger] s[j]).0
}

/// Insert a triple after every element whose timestamp is not larger (the
/// position a stable insertion sort by timestamp uses).
pub open spec fn insert_ts(t: Seq<(i64, i64, i64)>, x: (i64, i64, i64)) -> Seq<(i64, i64, i64)>
    decreases t.len(),
{
    if t.len() == 0 {
        seq![x]
    } else if t.last().0 <= x.0 {
        t.push(x)
    } else {
        insert_ts(t.drop_last(), x).push(t.last())
    }
}

/// The stable rearrangement of the triples by nondecreasing timestamp.
pub open spec fn sort_ts(s: Seq<(i64, i64, i64)>) -> Seq<(i64, i64, i64)>
    decreases s.len(),
{
    if s.len() == 0 {
        Seq::empty()
    } else {
        insert_ts(sort_ts(s.drop_last()), s.last())
    }
}

/// Unfolding one step of [`sort_ts`] over a growing prefix.
pub proof fn lemma_sort_ts_take(s: Seq<(i64, i64, i64)>, i: int)
    requires
        0 <= i < s.len(),
    ensures
        sort_ts(s.take(i + 1)) == insert_ts(sort_ts(s.take(i)), s[i]),
{
    assert(s.take(i + 1).drop_last() =~= s.take(i));
    assert(s.take(i + 1).last() == s[i]);
}

/// [`insert_ts`] keeps the order, grows the sequence by one, and adds
/// exactly the new triple to its contents.
pub proof fn lemma_insert_ts_props(t: Seq<(i64, i64, i64)>, x: (i64, i64, i64))
    requires
        sorted_ts(t),
    ensures
        sorted_ts(insert_ts(t, x)),
        insert_ts(t, x).len() == t.len() + 1,
        insert_ts(t, x).to_multiset() == t.to_multiset().insert(x),
    decreases t.len(),
{
    broadcast use vstd::seq_lib::group_to_multiset_ensures;

    if t.len() == 0 {
        assert(insert_ts(t, x) =~= Seq::empty().push(x));
        assert(t =~= Seq::<(i64, i64, i64)>::empty());
        assert(Seq::<(i64, i64, i64)>::empty().push(x).to_multiset()
            == Seq::<(i64, i64, i64)>::empty().to_multiset().insert(x));
    } else if t.last().0 <= x.0 {
        assert(sorted_ts(t.push(x)));
    } else {
        let d = t.drop_last();
        assert(sorted_ts(d));
        lemma_insert_ts_props(d, x);
        let u = insert_ts(d, x);
        assert forall|k: int| 0 <= k < u.len() implies u[k].0 <= t.last().0 by {
            assert(u.to_multiset().count(u[k]) > 0);
            assert(u.to_multiset() == d.to_multiset().insert(x));
            if u[k] != x {
                assert(d.to_multiset().count(u[k]) > 0);
                assert(d.contains(u[k]));
                let j = choose|j: int| 0 <= j < d.len() && d[j] == u[k];
                assert(t[j].0 <= t.last().0);
            }
        }
        assert(sorted_ts(u.push(t.last())));
        assert(t =~= d.push(t.last()));
        assert(t.to_multiset() == d.to_multiset().insert(t.last()));
        assert(u.push(t.last()).to_multiset() == u.to_multiset().insert(t.last()));
        assert(d.to_multiset().insert(x).insert(t.last()) =~= d.to_multiset().insert(
            t.last(),
        ).insert(x));
    }
}

/// [`sort_ts`] returns an ordered sequence with the same contents.
pub proof fn lemma_sort_ts_props(s: Seq<(i64, i64, i64)>)
    ensures
        sorted_ts(sort_ts(s)),
        sort_ts(s).len() == s.len(),
        sort_ts(s).to_multiset() == s.to_multiset(),
    decreases s.len(),
{
    broadcast use vstd::seq_lib::group_to_multiset_ensures;

    if s.len() == 0 {
        assert(sort_ts(s) =~= Seq::<(i64, i64, i64)>::empty());
    } else {
        let d = s.drop_last();
        lemma_sort_ts_props(d);
        lemma_insert_ts_props(sort_ts(d), s.last());
        assert(s =~= d.push(s.last()));
        assert(s.to_multiset() == d.to_multiset().insert(s.last()));
    }
}

/// Every element of the ordered sequence occurs in the original.
pub proof fn lemma_sort_ts_elems(s: Seq<(i64, i64, i64)>)
    ensures
        forall|k: int| 0 <= k < sort_ts(s).len() ==> s.contains(#[trigger] sort_ts(s)[k]),
{
    broadcast use vstd::seq_lib::group_to_multiset_ensures;

    lemma_sort_ts_props(s);
    assert forall|k: int| 0 <= k < sort_ts(s).len() implies s.contains(
        #[trigger] sort_ts(s)[k],
    ) by {
        assert(sort_ts(s).to_multiset().count(sort_ts(s)[k]) > 0);
        assert(s.to_multiset().count(sort_ts(s)[k]) > 0);
    }
}

/// If `k` is the first position whose timestamp exceeds the new triple's in
/// an ordered sequence, then [`insert_ts`] places it exactly there.
pub proof fn lemma_insert_ts_at(t: Seq<(i64, i64, i64)>, x: (i64, i64, i64), k: int)
    requires
        sorted_ts(t),
        0 <= k <= t.len(),
        k > 0 ==> t[k - 1].0 <= x.0,
        forall|i: int| k <= i < t.len() ==> (#[trigger] t[i]).0 > x.0,
    ensures
        insert_ts(t, x) == t.insert(k, x),
    decreases t.len(),
{
    if t.len() == 0 {
        assert(insert_ts(t, x) =~= t.insert(0, x));
    } else if t.last().0 <= x.0 {
        assert(k == t.len());
        assert(t.push(x) =~= t.insert(t.len() as int, x));
    } else {
        assert(k < t.len());
        let d = t.drop_last();
        assert(sorted_ts(d));
        assert(forall|i: int| k <= i < d.len() ==> (#[trigger] d[i]).0 > x.0);
        lemma_insert_ts_at(d, x, k);
        assert(insert_ts(d, x).push(t.last()) =~= t.insert(k, x));
    }
}

/// Return a copy of the triples rearranged into nondecreasing timestamp
/// order (stable insertion sort by the first component).
pub fn sorted_by_ts(v: &Vec<(i64, i64, i64)>) -> (r: Vec<(i64, i64, i64)>)
    ensures
        r@ == sort_ts(v@),
        sorted_ts(r@),
        r@.len() == v@.len(),
{
    let mut r: Vec<(i64, i64, i64)> = Vec::new();
    let n: usize = v.len();
    let mut i: usize = 0;
    proof {
        assert(v@.take(0) =~= Seq::<(i64, i64, i64)>::empty());
    }
    while i < n
        invariant
            n == v@.len(),
            0 <= i <= n,
            r@ == sort_ts(v@.take(i as int)),
            sorted_ts(r@),
            r@.len() == i,
        decreases n - i,
    {
        let x: (i64, i64, i64) = v[i];
        let mut k: usize = r.len();
        while k > 0 && r[k - 1].0 > x.0
            invariant
                0 <= k <= r@.len(),
                forall|j: int| k <= j < r@.len() ==> (#[trigger] r@[j]).0 > x.0,
            decreases k,
        {
            k = k - 1;
        }
        proof {
            lemma_insert_ts_at(r@, x, k as int);
            lemma_sort_ts_take(v@, i as int);
            lemma_sort_ts_props(v@.take(i as int));
            lemma_insert_ts_props(r@, x);
        }
        r.insert(k, x);
        i = i + 1;
    }
    proof {
        assert(v@.take(n as int) =~= v@);
        lemma_sort_ts_props(v@);
    }
    r
}

} // verus!
