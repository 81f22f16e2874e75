//! Facts about lists that several modules need.

use vstd::prelude::*;

verus! {

/// Filtering keeps exactly the members that pass.
pub proof fn lemma_filter<T>(s: Seq<T>, keep: spec_fn(T) -> bool)
    ensures
        forall|x: T| #[trigger] s.filter(keep).contains(x) <==> s.contains(x) && keep(x),
        s.filter(keep).len() <= s.len(),
        forall|i: int| 0 <= i < s.filter(keep).len() ==> keep(#[trigger] s.filter(keep)[i]),
    decreases s.len(),
{
    reveal(Seq::filter);
    let out = s.filter(keep);
    if s.len() > 0 {
        let less = s.drop_last();
        let part = less.filter(keep);
        lemma_filter(less, keep);
        assert forall|x: T| #[trigger] out.contains(x) <==> s.contains(x) && keep(x) by {
            if out.contains(x) {
                let i = choose|i: int| 0 <= i < out.len() && out[i] == x;
                if i < part.len() {
                    assert(part[i] == x);
                    assert(part.contains(x));
                    let j = choose|j: int| 0 <= j < less.len() && less[j] == x;
                    assert(s[j] == x);
                } else {
                    assert(s[s.len() - 1] == x);
                }
            }
            if s.contains(x) && keep(x) {
                let j = choose|j: int| 0 <= j < s.len() && s[j] == x;
                if j < less.len() {
                    assert(less[j] == x);
                    assert(less.contains(x));
                    assert(part.contains(x));
                    let i = choose|i: int| 0 <= i < part.len() && part[i] == x;
                    assert(out[i] == x);
                } else {
                    assert(out[out.len() - 1] == x);
                }
            }
        }
        assert forall|i: int| 0 <= i < out.len() implies keep(#[trigger] out[i]) by {
            if i < part.len() {
                assert(out[i] == part[i]);
            }
        }
    }
}

/// Filtering one more item.
pub proof fn lemma_filter_push<T>(s: Seq<T>, x: T, keep: spec_fn(T) -> bool)
    ensures
        s.push(x).filter(keep) == (if keep(x) {
            s.filter(keep).push(x)
        } else {
            s.filter(keep)
        }),
{
    reveal(Seq::filter);
    assert(s.push(x).drop_last() =~= s);
}

/// Filtering a longer list keeps what filtering its beginning did, in place.
pub proof fn lemma_filter_prefix<T>(s: Seq<T>, n: int, keep: spec_fn(T) -> bool)
    requires
        0 <= n <= s.len(),
    ensures
        s.take(n).filter(keep).len() <= s.filter(keep).len(),
        s.take(n).filter(keep) == s.filter(keep).take(s.take(n).filter(keep).len() as int),
        n < s.len() && keep(s[n]) ==> s.take(n).filter(keep).len() < s.filter(keep).len() && s.filter(
            keep,
        )[s.take(n).filter(keep).len() as int] == s[n],
    decreases s.len() - n,
{
    if n < s.len() {
        lemma_filter_prefix(s, n + 1, keep);
        assert(s.take(n + 1) =~= s.take(n).push(s[n]));
        lemma_filter_push(s.take(n), s[n], keep);
        let a = s.take(n).filter(keep);
        let b = s.take(n + 1).filter(keep);
        assert(a =~= b.take(a.len() as int));
        assert(a =~= s.filter(keep).take(a.len() as int));
        if keep(s[n]) {
            assert(b[a.len() as int] == s[n]);
        }
    } else {
        assert(s.take(n) =~= s);
        assert(s.filter(keep).take(s.filter(keep).len() as int) =~= s.filter(keep));
    }
}

/// One item more, and one more member.
pub proof fn lemma_push_contains<T>(s: Seq<T>, x: T)
    ensures
        forall|y: T| #[trigger] s.push(x).contains(y) <==> s.contains(y) || y == x,
{
    let more = s.push(x);
    assert forall|y: T| #[trigger] more.contains(y) <==> s.contains(y) || y == x by {
        if s.contains(y) {
            let i = choose|i: int| 0 <= i < s.len() && s[i] == y;
            assert(more[i] == y);
        }
        assert(more[s.len() as int] == x);
    }
}

/// Filtering an ordered list leaves it ordered.
pub proof fn lemma_filter_in_order<T>(
    s: Seq<T>,
    keep: spec_fn(T) -> bool,
    le: spec_fn(T, T) -> bool,
)
    requires
        forall|i: int, j: int| 0 <= i < j < s.len() ==> le(#[trigger] s[i], #[trigger] s[j]),
    ensures
        forall|i: int, j: int|
            0 <= i < j < s.filter(keep).len() ==> le(
                #[trigger] s.filter(keep)[i],
                #[trigger] s.filter(keep)[j],
            ),
    decreases s.len(),
{
    reveal(Seq::filter);
    if s.len() > 0 {
        let less = s.drop_last();
        lemma_filter_in_order(less, keep, le);
        lemma_filter(less, keep);
        let part = less.filter(keep);
        let out = s.filter(keep);
        assert forall|i: int, j: int| 0 <= i < j < out.len() implies le(
            #[trigger] out[i],
            #[trigger] out[j],
        ) by {
            assert(out[i] == part[i]);
            if j < part.len() {
                assert(out[j] == part[j]);
            } else {
                assert(part.contains(part[i]));
                let t = choose|t: int| 0 <= t < less.len() && less[t] == part[i];
                assert(s[t] == part[i]);
            }
        }
    }
}

/// Lists of the same numbers in order are the same.
pub proof fn lemma_one_ascending(a: Seq<usize>, b: Seq<usize>)
    requires
        forall|x: usize| #[trigger] a.contains(x) <==> b.contains(x),
        forall|i: int, j: int| 0 <= i < j < a.len() ==> #[trigger] a[i] < #[trigger] a[j],
        forall|i: int, j: int| 0 <= i < j < b.len() ==> #[trigger] b[i] < #[trigger] b[j],
    ensures
        a == b,
    decreases a.len(),
{
    if a.len() == 0 {
        if b.len() > 0 {
            assert(b.contains(b[0]));
            assert(a.contains(b[0]));
        }
        assert(a =~= b);
    } else {
        assert(a.contains(a.last()));
        let j = choose|j: int| 0 <= j < b.len() && b[j] == a.last();
        assert(b.contains(b.last()));
        assert(a.contains(b.last()));
        let i = choose|i: int| 0 <= i < a.len() && a[i] == b.last();
        assert(a.last() == b.last());
        let fewer = a.drop_last();
        let less = b.drop_last();
        assert forall|x: usize| #[trigger] fewer.contains(x) <==> less.contains(x) by {
            if fewer.contains(x) {
                let k = choose|k: int| 0 <= k < fewer.len() && fewer[k] == x;
                assert(a[k] == x && x < a.last());
                assert(a.contains(x));
                let l = choose|l: int| 0 <= l < b.len() && b[l] == x;
                assert(less[l] == x);
            }
            if less.contains(x) {
                let k = choose|k: int| 0 <= k < less.len() && less[k] == x;
                assert(b[k] == x && x < b.last());
                assert(a.contains(x));
                let l = choose|l: int| 0 <= l < a.len() && a[l] == x;
                assert(fewer[l] == x);
            }
        }
        lemma_one_ascending(fewer, less);
        assert(a =~= fewer.push(a.last()));
        assert(b =~= less.push(b.last()));
    }
}

} // verus!
