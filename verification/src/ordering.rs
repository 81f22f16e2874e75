//! Sorting under an order stated as a spec function.

use vstd::prelude::*;

verus! {

/// A total preorder, with the code that decides it.
pub trait Precedence<T> {
    /// Does `a` stand no later than `b`?
    spec fn le(&self, a: T, b: T) -> bool;

    /// The items this order can compare.
    spec fn knows(&self, a: T) -> bool;

    proof fn le_is_total(&self, a: T, b: T)
        requires
            self.knows(a),
            self.knows(b),
        ensures
            self.le(a, b) || self.le(b, a),
    ;

    proof fn le_is_transitive(&self, a: T, b: T, c: T)
        requires
            self.knows(a),
            self.knows(b),
            self.knows(c),
            self.le(a, b),
            self.le(b, c),
        ensures
            self.le(a, c),
    ;

    fn precedes(&self, a: &T, b: &T) -> (yes: bool)
        requires
            self.knows(*a),
            self.knows(*b),
        ensures
            yes == self.le(*a, *b),
    ;
}

/// Every item stands no later than every item after it.
pub open spec fn in_order<T, O: Precedence<T>>(s: Seq<T>, order: &O) -> bool {
    forall|i: int, j: int| 0 <= i < j < s.len() ==> order.le(#[trigger] s[i], #[trigger] s[j])
}

/// The two sorted runs as one.
fn merged<T: Copy, O: Precedence<T>>(a: &Vec<T>, b: &Vec<T>, order: &O) -> (out: Vec<T>)
    requires
        in_order(a@, order),
        in_order(b@, order),
        a@.len() + b@.len() <= usize::MAX,
        forall|i: int| 0 <= i < a@.len() ==> order.knows(#[trigger] a@[i]),
        forall|i: int| 0 <= i < b@.len() ==> order.knows(#[trigger] b@[i]),
    ensures
        out@.to_multiset() == a@.to_multiset().add(b@.to_multiset()),
        in_order(out@, order),
        out@.len() == a@.len() + b@.len(),
        forall|i: int| 0 <= i < out@.len() ==> order.knows(#[trigger] out@[i]),
{
    broadcast use vstd::seq_lib::group_to_multiset_ensures;

    let mut out: Vec<T> = Vec::with_capacity(a.len() + b.len());
    let mut i: usize = 0;
    let mut j: usize = 0;
    proof {
        assert(a@.take(0) =~= Seq::<T>::empty());
        assert(b@.take(0) =~= Seq::<T>::empty());
        assert(out@.to_multiset() =~= a@.take(0).to_multiset().add(b@.take(0).to_multiset()));
    }
    while i < a.len() || j < b.len()
        invariant
            in_order(a@, order),
            in_order(b@, order),
            a@.len() + b@.len() <= usize::MAX,
            forall|i: int| 0 <= i < a@.len() ==> order.knows(#[trigger] a@[i]),
            forall|i: int| 0 <= i < b@.len() ==> order.knows(#[trigger] b@[i]),
            i <= a@.len(),
            j <= b@.len(),
            out@.len() == i + j,
            out@.to_multiset() == a@.take(i as int).to_multiset().add(
                b@.take(j as int).to_multiset(),
            ),
            in_order(out@, order),
            forall|k: int| 0 <= k < out@.len() ==> order.knows(#[trigger] out@[k]),
            forall|k: int, l: int|
                0 <= k < out@.len() && i <= l < a@.len() ==> order.le(
                    #[trigger] out@[k],
                    #[trigger] a@[l],
                ),
            forall|k: int, l: int|
                0 <= k < out@.len() && j <= l < b@.len() ==> order.le(
                    #[trigger] out@[k],
                    #[trigger] b@[l],
                ),
        decreases a@.len() - i + b@.len() - j,
    {
        let first: bool = if i >= a.len() {
            false
        } else if j >= b.len() {
            true
        } else {
            order.precedes(&a[i], &b[j])
        };
        let ghost before = out@;
        if first {
            proof {
                assert(a@.take(i + 1) =~= a@.take(i as int).push(a@[i as int]));
                assert forall|l: int| j <= l < b@.len() implies order.le(
                    a@[i as int],
                    #[trigger] b@[l],
                ) by {
                    if l > j {
                        assert(order.le(b@[j as int], b@[l]));
                        order.le_is_transitive(a@[i as int], b@[j as int], b@[l]);
                    }
                }
            }
            out.push(a[i]);
            proof {
                before.to_multiset_ensures();
                a@.take(i as int).to_multiset_ensures();
                assert(out@.to_multiset() == before.to_multiset().insert(a@[i as int]));
                assert(a@.take(i + 1).to_multiset() == a@.take(i as int).to_multiset().insert(
                    a@[i as int],
                ));
            }
            i = i + 1;
        } else {
            proof {
                assert(b@.take(j + 1) =~= b@.take(j as int).push(b@[j as int]));
                assert forall|l: int| i <= l < a@.len() implies order.le(
                    b@[j as int],
                    #[trigger] a@[l],
                ) by {
                    order.le_is_total(a@[i as int], b@[j as int]);
                    if l > i {
                        assert(order.le(a@[i as int], a@[l]));
                        order.le_is_transitive(b@[j as int], a@[i as int], a@[l]);
                    }
                }
            }
            out.push(b[j]);
            proof {
                before.to_multiset_ensures();
                b@.take(j as int).to_multiset_ensures();
                assert(out@.to_multiset() == before.to_multiset().insert(b@[j as int]));
                assert(b@.take(j + 1).to_multiset() == b@.take(j as int).to_multiset().insert(
                    b@[j as int],
                ));
            }
            j = j + 1;
        }
        proof {
            assert(out@.to_multiset() =~= a@.take(i as int).to_multiset().add(
                b@.take(j as int).to_multiset(),
            ));
        }
    }
    proof {
        assert(a@.take(a@.len() as int) =~= a@);
        assert(b@.take(b@.len() as int) =~= b@);
    }
    out
}

fn sorted_range<T: Copy, O: Precedence<T>>(
    items: &Vec<T>,
    lo: usize,
    hi: usize,
    order: &O,
) -> (out: Vec<T>)
    requires
        lo <= hi <= items@.len(),
        forall|i: int| 0 <= i < items@.len() ==> order.knows(#[trigger] items@[i]),
    ensures
        out@.to_multiset() == items@.subrange(lo as int, hi as int).to_multiset(),
        out@.len() == hi - lo,
        in_order(out@, order),
        forall|i: int| 0 <= i < out@.len() ==> order.knows(#[trigger] out@[i]),
    decreases hi - lo,
{
    if hi - lo <= 1 {
        let mut out: Vec<T> = Vec::new();
        if lo < hi {
            out.push(items[lo]);
        }
        proof {
            assert(out@ =~= items@.subrange(lo as int, hi as int));
        }
        return out;
    }
    let mid: usize = lo + (hi - lo) / 2;
    let a = sorted_range(items, lo, mid, order);
    let b = sorted_range(items, mid, hi, order);
    proof {
        assert(items@.subrange(lo as int, hi as int) =~= items@.subrange(lo as int, mid as int)
            + items@.subrange(mid as int, hi as int));
        vstd::seq_lib::lemma_multiset_commutative(
            items@.subrange(lo as int, mid as int),
            items@.subrange(mid as int, hi as int),
        );
    }
    merged(&a, &b, order)
}

/// The items in order.
pub fn sorted<T: Copy, O: Precedence<T>>(items: &Vec<T>, order: &O) -> (out: Vec<T>)
    requires
        forall|i: int| 0 <= i < items@.len() ==> order.knows(#[trigger] items@[i]),
    ensures
        out@.to_multiset() == items@.to_multiset(),
        out@.len() == items@.len(),
        in_order(out@, order),
        forall|i: int| 0 <= i < out@.len() ==> order.knows(#[trigger] out@[i]),
{
    proof {
        assert(items@.subrange(0, items@.len() as int) =~= items@);
    }
    sorted_range(items, 0, items.len(), order)
}

/// Two lists that hold the same items the same number of times hold the same items.
pub proof fn lemma_same_members<T>(a: Seq<T>, b: Seq<T>)
    requires
        a.to_multiset() == b.to_multiset(),
    ensures
        forall|x: T| a.contains(x) <==> b.contains(x),
        a.to_set() == b.to_set(),
        a.len() == b.len(),
        a.no_duplicates() <==> b.no_duplicates(),
{
    broadcast use vstd::seq_lib::group_to_multiset_ensures;

    assert forall|x: T| a.contains(x) <==> b.contains(x) by {
        assert(a.contains(x) <==> a.to_multiset().count(x) > 0);
        assert(b.contains(x) <==> b.to_multiset().count(x) > 0);
    }
    assert(a.to_set() =~= b.to_set());
    assert(a.len() == a.to_multiset().len());
    assert(b.len() == b.to_multiset().len());
    if a.no_duplicates() {
        a.unique_seq_to_set();
        b.lemma_no_dup_set_cardinality();
    }
    if b.no_duplicates() {
        b.unique_seq_to_set();
        a.lemma_no_dup_set_cardinality();
    }
}

/// Every item stands no later than every item after it, under `le`.
pub open spec fn is_sorted<T>(s: Seq<T>, le: spec_fn(T, T) -> bool) -> bool {
    forall|i: int, j: int| 0 <= i < j < s.len() ==> #[trigger] le(s[i], s[j])
}

/// Two lists in the same order, holding the same items, are the same list when
/// the order never ties two different items among them.
pub proof fn lemma_one_order<T>(a: Seq<T>, b: Seq<T>, le: spec_fn(T, T) -> bool)
    requires
        a.to_multiset() == b.to_multiset(),
        is_sorted(a, le),
        is_sorted(b, le),
        forall|x: T, y: T|
            a.contains(x) && a.contains(y) && #[trigger] le(x, y) && #[trigger] le(y, x) ==> x == y,
    ensures
        a == b,
    decreases a.len(),
{
    broadcast use vstd::seq_lib::group_to_multiset_ensures;

    lemma_same_members(a, b);
    if a.len() == 0 {
        assert(a =~= b);
    } else {
        let x = a.last();
        let y = b.last();
        assert(a.contains(x));
        assert(b.contains(y));
        assert(a.contains(y));
        assert(b.contains(x));
        let i = choose|i: int| 0 <= i < a.len() && a[i] == y;
        let j = choose|j: int| 0 <= j < b.len() && b[j] == x;
        if x != y {
            assert(le(a[i], a[a.len() - 1]));
            assert(le(b[j], b[b.len() - 1]));
        }
        let a1 = a.drop_last();
        let b1 = b.drop_last();
        assert(a =~= a1.push(x));
        assert(b =~= b1.push(x));
        assert(a1.to_multiset() =~= a.to_multiset().remove(x));
        assert(b1.to_multiset() =~= b.to_multiset().remove(x));
        assert forall|u: T, v: T|
            a1.contains(u) && a1.contains(v) && #[trigger] le(u, v) && #[trigger] le(
                v,
                u,
            ) implies u == v by {
            let k = choose|k: int| 0 <= k < a1.len() && a1[k] == u;
            let l = choose|l: int| 0 <= l < a1.len() && a1[l] == v;
            assert(a[k] == u && a[l] == v);
            assert(a.contains(u) && a.contains(v));
        }
        assert forall|k: int, l: int| 0 <= k < l < a1.len() implies #[trigger] le(a1[k], a1[l]) by {
            assert(le(a[k], a[l]));
        }
        assert forall|k: int, l: int| 0 <= k < l < b1.len() implies #[trigger] le(b1[k], b1[l]) by {
            assert(le(b[k], b[l]));
        }
        lemma_one_order(a1, b1, le);
    }
}

/// Two lists without repeats that hold the same items hold them the same number
/// of times.
pub proof fn lemma_same_multiset<T>(a: Seq<T>, b: Seq<T>)
    requires
        a.no_duplicates(),
        b.no_duplicates(),
        a.to_set() == b.to_set(),
    ensures
        a.to_multiset() == b.to_multiset(),
{
    a.lemma_multiset_has_no_duplicates();
    b.lemma_multiset_has_no_duplicates();
    broadcast use vstd::seq_lib::group_to_multiset_ensures;

    assert forall|x: T| a.to_multiset().count(x) == b.to_multiset().count(x) by {
        assert(a.contains(x) <==> a.to_set().contains(x));
        assert(b.contains(x) <==> b.to_set().contains(x));
        assert(a.contains(x) <==> a.to_multiset().count(x) > 0);
        assert(b.contains(x) <==> b.to_multiset().count(x) > 0);
        if a.contains(x) {
            assert(a.to_multiset().contains(x));
            assert(b.to_multiset().contains(x));
        }
    }
    assert(a.to_multiset() =~= b.to_multiset());
}

} // verus!
