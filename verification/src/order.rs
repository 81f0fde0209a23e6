//! Stable ordering of records by a key: the order that a stable sort by
//! that key leaves.
use vstd::prelude::*;

verus! {

/// Records that a list is kept sorted by: `precedes(a, b)` holds when the key
/// of `a` is strictly less than the key of `b`.
pub trait KeyOrdered: View + Sized {
    spec fn precedes(a: Self::V, b: Self::V) -> bool;

    fn precedes_exec(&self, other: &Self) -> (r: bool)
        ensures
            r == Self::precedes(self@, other@),
    ;

    /// An item never comes strictly before one that comes strictly before it.
    proof fn lemma_precedes_asymmetric(a: Self::V, b: Self::V)
        ensures
            !(Self::precedes(a, b) && Self::precedes(b, a)),
    ;

    /// "Not after" is transitive.
    proof fn lemma_not_after_transitive(a: Self::V, b: Self::V, c: Self::V)
        requires
            !Self::precedes(b, a),
            !Self::precedes(c, b),
        ensures
            !Self::precedes(c, a),
    ;
}

/// The views of the items of a sequence.
pub open spec fn views<T: View>(s: Seq<T>) -> Seq<T::V> {
    s.map_values(|x: T| x@)
}

/// `x` placed after every item of the (sorted) `s` whose key is not greater.
pub open spec fn insert_in_order<T: KeyOrdered>(s: Seq<T::V>, x: T::V) -> Seq<T::V>
    decreases s.len(),
{
    if s.len() == 0 {
        seq![x]
    } else if T::precedes(x, s.last()) {
        insert_in_order::<T>(s.drop_last(), x).push(s.last())
    } else {
        s.push(x)
    }
}

/// The stable sort of `s` by key: items with equal keys keep their order.
pub open spec fn sorted_in_order<T: KeyOrdered>(s: Seq<T::V>) -> Seq<T::V>
    decreases s.len(),
{
    if s.len() == 0 {
        s
    } else {
        insert_in_order::<T>(sorted_in_order::<T>(s.drop_last()), s.last())
    }
}

proof fn lemma_insert_at<T: KeyOrdered>(s: Seq<T::V>, x: T::V, p: int)
    requires
        0 <= p <= s.len(),
        forall|k: int| p <= k < s.len() ==> T::precedes(x, #[trigger] s[k]),
        p == 0 || !T::precedes(x, s[p - 1]),
    ensures
        insert_in_order::<T>(s, x) == s.insert(p, x),
    decreases s.len(),
{
    if s.len() == 0 {
        assert(s.insert(p, x) =~= seq![x]);
    } else if p == s.len() {
        assert(s.insert(p, x) =~= s.push(x));
    } else {
        assert(T::precedes(x, s[s.len() - 1]));
        lemma_insert_at::<T>(s.drop_last(), x, p);
        assert(s.drop_last().insert(p, x).push(s.last()) =~= s.insert(p, x));
    }
}

/// Places `x` in the sorted `v` after every item whose key is not greater.
pub fn insert_ordered<T: KeyOrdered>(v: &mut Vec<T>, x: T)
    ensures
        views(final(v)@) == insert_in_order::<T>(views(old(v)@), x@),
{
    let ghost s = views(v@);
    let mut p: usize = v.len();
    while p > 0 && x.precedes_exec(&v[p - 1])
        invariant
            0 <= p <= v.len(),
            s == views(v@),
            forall|k: int| p <= k < s.len() ==> T::precedes(x@, #[trigger] s[k]),
        decreases p,
    {
        p = p - 1;
    }
    proof {
        lemma_insert_at::<T>(s, x@, p as int);
    }
    v.insert(p, x);
    assert(views(v@) =~= s.insert(p as int, x@));
}

/// The stable sort of `v` by key.
pub fn sort_in_order<T: KeyOrdered>(v: Vec<T>) -> (r: Vec<T>)
    ensures
        views(r@) == sorted_in_order::<T>(views(v@)),
{
    let ghost orig = views(v@);
    let mut rest = v;
    let mut out: Vec<T> = Vec::new();
    assert(orig.take(0) =~= Seq::<T::V>::empty());
    assert(views(out@) =~= Seq::<T::V>::empty());
    while rest.len() > 0
        invariant
            views(rest@) == orig.skip(orig.len() - rest.len()),
            rest.len() <= orig.len(),
            views(out@) == sorted_in_order::<T>(orig.take(orig.len() - rest.len())),
        decreases rest.len(),
    {
        let ghost i = orig.len() - rest.len();
        let ghost before = rest@;
        let x = rest.remove(0);
        proof {
            assert(views(before)[0] == orig.skip(i)[0]);
            assert(x@ == orig[i]);
            assert(views(rest@) =~= views(before).drop_first());
            assert(views(rest@) =~= orig.skip(i + 1));
            assert(orig.take(i + 1).drop_last() =~= orig.take(i));
        }
        insert_ordered(&mut out, x);
    }
    assert(orig.take(orig.len() as int) =~= orig);
    out
}


/// No item comes strictly before an earlier one.
pub open spec fn in_order<T: KeyOrdered>(s: Seq<T::V>) -> bool {
    forall|i: int, j: int| 0 <= i < j < s.len() ==> !T::precedes(#[trigger] s[j], #[trigger] s[i])
}

/// Inserting in order puts the new item at some position and shifts the rest.
proof fn lemma_insert_in_order_position<T: KeyOrdered>(s: Seq<T::V>, x: T::V) -> (p: int)
    ensures
        0 <= p <= s.len(),
        insert_in_order::<T>(s, x) == s.insert(p, x),
    decreases s.len(),
{
    if s.len() == 0 {
        assert(s.insert(0, x) =~= seq![x]);
        0
    } else if T::precedes(x, s.last()) {
        let d = s.drop_last();
        let p = lemma_insert_in_order_position::<T>(d, x);
        assert(d.insert(p, x).push(s.last()) =~= s.insert(p, x));
        p
    } else {
        assert(s.insert(s.len() as int, x) =~= s.push(x));
        s.len() as int
    }
}

/// Inserting in order adds exactly the new item.
pub proof fn lemma_insert_in_order_contents<T: KeyOrdered>(s: Seq<T::V>, x: T::V)
    ensures
        insert_in_order::<T>(s, x).len() == s.len() + 1,
        forall|y: T::V| #[trigger] insert_in_order::<T>(s, x).contains(y) <==> (s.contains(y) || y == x),
{
    let p = lemma_insert_in_order_position::<T>(s, x);
    let r = s.insert(p, x);
    assert forall|y: T::V| #[trigger] r.contains(y) <==> (s.contains(y) || y == x) by {
        if r.contains(y) {
            let k = choose|k: int| 0 <= k < r.len() && r[k] == y;
            if k < p {
                assert(s[k] == y);
            } else if k > p {
                assert(s[k - 1] == y);
            }
        }
        if s.contains(y) {
            let m = choose|m: int| 0 <= m < s.len() && s[m] == y;
            if m < p {
                assert(r[m] == y);
            } else {
                assert(r[m + 1] == y);
            }
        }
        if y == x {
            assert(r[p] == y);
        }
    }
}

/// Sorting keeps exactly the items.
pub proof fn lemma_sorted_in_order_contents<T: KeyOrdered>(s: Seq<T::V>)
    ensures
        sorted_in_order::<T>(s).len() == s.len(),
        forall|y: T::V| #[trigger] sorted_in_order::<T>(s).contains(y) <==> s.contains(y),
    decreases s.len(),
{
    if s.len() > 0 {
        let d = s.drop_last();
        lemma_sorted_in_order_contents::<T>(d);
        lemma_insert_in_order_contents::<T>(sorted_in_order::<T>(d), s.last());
        assert forall|y: T::V| #[trigger] sorted_in_order::<T>(s).contains(y) <==> s.contains(y) by {
            if s.contains(y) {
                let m = choose|m: int| 0 <= m < s.len() && s[m] == y;
                if m < s.len() - 1 {
                    assert(d[m] == y);
                    assert(d.contains(y));
                }
            }
            if d.contains(y) {
                let m = choose|m: int| 0 <= m < d.len() && d[m] == y;
                assert(s[m] == y);
            }
            if y == s.last() {
                assert(s[s.len() - 1] == y);
            }
        }
    }
}

/// Inserting in order into an ordered list leaves it ordered.
pub proof fn lemma_insert_in_order_ordered<T: KeyOrdered>(s: Seq<T::V>, x: T::V)
    requires
        in_order::<T>(s),
    ensures
        in_order::<T>(insert_in_order::<T>(s, x)),
    decreases s.len(),
{
    let r = insert_in_order::<T>(s, x);
    if s.len() == 0 {
        assert(r =~= seq![x]);
    } else if T::precedes(x, s.last()) {
        let d = s.drop_last();
        let last = s.last();
        assert(in_order::<T>(d)) by {
            assert forall|i: int, j: int| 0 <= i < j < d.len() implies !T::precedes(#[trigger] d[j], #[trigger] d[i]) by {
                assert(d[i] == s[i] && d[j] == s[j]);
            }
        }
        lemma_insert_in_order_ordered::<T>(d, x);
        lemma_insert_in_order_contents::<T>(d, x);
        let ri = insert_in_order::<T>(d, x);
        assert(r == ri.push(last));
        assert forall|i: int, j: int| 0 <= i < j < r.len() implies !T::precedes(#[trigger] r[j], #[trigger] r[i]) by {
            if j < ri.len() {
                assert(r[i] == ri[i] && r[j] == ri[j]);
            } else {
                assert(r[j] == last);
                assert(r[i] == ri[i]);
                assert(ri.contains(ri[i]));
                if ri[i] == x {
                    T::lemma_precedes_asymmetric(x, last);
                } else {
                    assert(d.contains(ri[i]));
                    let m = choose|m: int| 0 <= m < d.len() && d[m] == ri[i];
                    assert(s[m] == ri[i]);
                    assert(s[s.len() - 1] == last);
                }
            }
        }
    } else {
        assert(r == s.push(x));
        let last = s.last();
        assert forall|i: int, j: int| 0 <= i < j < r.len() implies !T::precedes(#[trigger] r[j], #[trigger] r[i]) by {
            if j < s.len() {
                assert(r[i] == s[i] && r[j] == s[j]);
            } else {
                assert(r[j] == x);
                assert(r[i] == s[i]);
                if i < s.len() - 1 {
                    assert(s[s.len() - 1] == last);
                    assert(!T::precedes(last, s[i]));
                    T::lemma_not_after_transitive(s[i], last, x);
                }
            }
        }
    }
}

/// Sorting gives an ordered list.
pub proof fn lemma_sorted_in_order_ordered<T: KeyOrdered>(s: Seq<T::V>)
    ensures
        in_order::<T>(sorted_in_order::<T>(s)),
    decreases s.len(),
{
    if s.len() > 0 {
        lemma_sorted_in_order_ordered::<T>(s.drop_last());
        lemma_insert_in_order_ordered::<T>(sorted_in_order::<T>(s.drop_last()), s.last());
    }
}

/// No two items have the same key.
pub open spec fn distinct_keys<T: KeyOrdered>(s: Seq<T::V>) -> bool {
    forall|i: int, j: int|
        0 <= i < j < s.len() ==> T::precedes(#[trigger] s[i], #[trigger] s[j]) || T::precedes(
            s[j],
            s[i],
        )
}

/// Inserting an item whose key no item has keeps the keys distinct.
pub proof fn lemma_insert_in_order_distinct<T: KeyOrdered>(s: Seq<T::V>, x: T::V)
    requires
        distinct_keys::<T>(s),
        forall|k: int| 0 <= k < s.len() ==> T::precedes(#[trigger] s[k], x) || T::precedes(x, s[k]),
    ensures
        distinct_keys::<T>(insert_in_order::<T>(s, x)),
{
    let p = lemma_insert_in_order_position::<T>(s, x);
    let r = s.insert(p, x);
    assert forall|i: int, j: int| 0 <= i < j < r.len() implies T::precedes(#[trigger] r[i], #[trigger] r[j])
        || T::precedes(r[j], r[i]) by {
        if j < p {
            assert(r[i] == s[i] && r[j] == s[j]);
        } else if j == p {
            assert(r[i] == s[i]);
        } else if i == p {
            assert(r[j] == s[j - 1]);
        } else if i < p {
            assert(r[i] == s[i] && r[j] == s[j - 1]);
        } else {
            assert(r[i] == s[i - 1] && r[j] == s[j - 1]);
        }
    }
}

/// Sorting keeps the keys distinct.
pub proof fn lemma_sorted_in_order_distinct<T: KeyOrdered>(s: Seq<T::V>)
    requires
        distinct_keys::<T>(s),
    ensures
        distinct_keys::<T>(sorted_in_order::<T>(s)),
    decreases s.len(),
{
    if s.len() > 0 {
        let d = s.drop_last();
        let x = s.last();
        assert(distinct_keys::<T>(d)) by {
            assert forall|i: int, j: int| 0 <= i < j < d.len() implies T::precedes(#[trigger] d[i], #[trigger] d[j])
                || T::precedes(d[j], d[i]) by {
                assert(d[i] == s[i] && d[j] == s[j]);
            }
        }
        lemma_sorted_in_order_distinct::<T>(d);
        let sd = sorted_in_order::<T>(d);
        lemma_sorted_in_order_contents::<T>(d);
        assert forall|k: int| 0 <= k < sd.len() implies T::precedes(#[trigger] sd[k], x) || T::precedes(x, sd[k]) by {
            assert(sd.contains(sd[k]));
            assert(d.contains(sd[k]));
            let m = choose|m: int| 0 <= m < d.len() && d[m] == sd[k];
            assert(s[m] == sd[k]);
            assert(s[s.len() - 1] == x);
        }
        lemma_insert_in_order_distinct::<T>(sd, x);
    }
}

} // verus!
