//! Matchings in a bipartite graph: how large one can be, and what bounds it.
//!
//! A graph is a set of edges, each a vertex of one side and a vertex of the other.
//! A matching is a list of edges no two of which share a vertex.

use vstd::prelude::*;

verus! {

/// An edge: a vertex on each side.
pub type Edge = (u32, u32);

/// A list of edges of the graph, no two of which share a vertex on either side.
pub open spec fn is_matching(g: Set<Edge>, m: Seq<Edge>) -> bool {
    &&& forall|k: int| 0 <= k < m.len() ==> g.contains(#[trigger] m[k])
    &&& forall|k: int, l: int|
        0 <= k < m.len() && 0 <= l < m.len() && k != l ==> (#[trigger] m[k]).0 != (
        #[trigger] m[l]).0 && m[k].1 != m[l].1
}

/// Does the graph have a matching of `n` edges?
pub open spec fn has_matching(g: Set<Edge>, n: nat) -> bool {
    exists|m: Seq<Edge>| #[trigger] is_matching(g, m) && m.len() == n
}

/// Different numbers below `n`: there are at most `n` of them.
pub proof fn lemma_pigeonhole(s: Seq<int>, n: nat)
    requires
        s.no_duplicates(),
        forall|k: int| 0 <= k < s.len() ==> 0 <= #[trigger] s[k] < n,
    ensures
        s.len() <= n,
{
    s.unique_seq_to_set();
    let range = vstd::set_lib::set_int_range(0, n as int);
    vstd::set_lib::lemma_int_range(0, n as int);
    assert(s.to_set().subset_of(range)) by {
        assert forall|x: int| s.to_set().contains(x) implies range.contains(x) by {
            let k = choose|k: int| 0 <= k < s.len() && s[k] == x;
            assert(s[k] == x);
        }
    }
    vstd::set_lib::lemma_len_subset(s.to_set(), range);
}

/// A part of a matching is a matching.
pub proof fn lemma_shorter(g: Set<Edge>, m: Seq<Edge>, n: nat)
    requires
        is_matching(g, m),
        n <= m.len(),
    ensures
        has_matching(g, n),
{
    assert(is_matching(g, m.take(n as int)));
}

/// A matching in a part of a graph is a matching in the whole.
pub proof fn lemma_wider(g: Set<Edge>, h: Set<Edge>, n: nat)
    requires
        has_matching(g, n),
        forall|e: Edge| #[trigger] g.contains(e) ==> h.contains(e),
    ensures
        has_matching(h, n),
{
    let m = choose|m: Seq<Edge>| #[trigger] is_matching(g, m) && m.len() == n;
    assert(is_matching(h, m));
}

/// Every graph has the empty matching.
pub proof fn lemma_empty(g: Set<Edge>)
    ensures
        has_matching(g, 0),
{
    assert(is_matching(g, Seq::empty()));
}

/// A vertex, on one side or the other.
pub enum End {
    A(u32),
    B(u32),
}

/// Does the edge touch the vertex?
pub open spec fn touches(v: End, e: Edge) -> bool {
    match v {
        End::A(a) => e.0 == a,
        End::B(b) => e.1 == b,
    }
}

/// Does one of the vertices touch the edge?
pub open spec fn is_covered(cover: Seq<End>, e: Edge) -> bool {
    exists|c: int| 0 <= c < cover.len() && touches(#[trigger] cover[c], e)
}

/// A matching is no larger than any list of vertices that touches all its edges.
pub proof fn lemma_cover(g: Set<Edge>, m: Seq<Edge>, cover: Seq<End>)
    requires
        is_matching(g, m),
        forall|e: Edge| #[trigger] g.contains(e) ==> is_covered(cover, e),
    ensures
        m.len() <= cover.len(),
{
    let s = Seq::new(
        m.len(),
        |k: int| choose|c: int| 0 <= c < cover.len() && touches(#[trigger] cover[c], m[k]),
    );
    assert forall|k: int| 0 <= k < s.len() implies 0 <= #[trigger] s[k] < cover.len() && touches(
        cover[s[k]],
        m[k],
    ) by {
        assert(g.contains(m[k]));
        assert(is_covered(cover, m[k]));
    }
    assert forall|k: int, l: int| 0 <= k < s.len() && 0 <= l < s.len() && k != l implies s[k]
        != s[l] by {
        assert(m[k].0 != m[l].0 && m[k].1 != m[l].1);
    }
    lemma_pigeonhole(s, cover.len());
}

/// A matching that no further edge fits beside is at least half as large as any.
pub proof fn lemma_half(g: Set<Edge>, taken: Seq<Edge>, m: Seq<Edge>)
    requires
        is_matching(g, m),
        forall|e: Edge| #[trigger]
            g.contains(e) ==> exists|t: int|
                0 <= t < taken.len() && ((#[trigger] taken[t]).0 == e.0 || taken[t].1 == e.1),
    ensures
        m.len() <= 2 * taken.len(),
{
    let n = taken.len() as int;
    let cover = Seq::new(
        (2 * n) as nat,
        |c: int|
            if c < n {
                End::A(taken[c].0)
            } else {
                End::B(taken[c - n].1)
            },
    );
    assert forall|e: Edge| #[trigger] g.contains(e) implies is_covered(cover, e) by {
        let t = choose|t: int|
            0 <= t < taken.len() && ((#[trigger] taken[t]).0 == e.0 || taken[t].1 == e.1);
        if taken[t].0 == e.0 {
            assert(touches(cover[t], e));
        } else {
            assert(touches(cover[t + n], e));
        }
    }
    lemma_cover(g, m, cover);
}

/// The edges of a list at one vertex.
pub open spec fn edges_at(kept: Seq<Edge>, v: End) -> Seq<Edge> {
    kept.filter(|e: Edge| touches(v, e))
}

/// How many edges of a list a vertex has.
pub open spec fn degree(kept: Seq<Edge>, v: End) -> nat {
    edges_at(kept, v).len()
}

/// One more edge raises the degree of its own two vertices by one.
pub proof fn lemma_degree_push(kept: Seq<Edge>, e: Edge, v: End)
    ensures
        degree(kept.push(e), v) == degree(kept, v) + (if touches(v, e) {
            1nat
        } else {
            0nat
        }),
{
    reveal(Seq::filter);
    assert(kept.push(e).drop_last() =~= kept);
}

proof fn lemma_filter_facts(kept: Seq<Edge>, v: End)
    requires
        kept.no_duplicates(),
    ensures
        edges_at(kept, v).no_duplicates(),
        forall|k: int|
            0 <= k < edges_at(kept, v).len() ==> kept.contains(#[trigger] edges_at(kept, v)[k])
                && touches(v, edges_at(kept, v)[k]),
    decreases kept.len(),
{
    reveal(Seq::filter);
    if kept.len() > 0 {
        let before = kept.drop_last();
        lemma_filter_facts(before, v);
        let list = edges_at(kept, v);
        assert forall|k: int| 0 <= k < list.len() implies kept.contains(#[trigger] list[k])
            && touches(v, list[k]) by {
            if k < edges_at(before, v).len() {
                assert(list[k] == edges_at(before, v)[k]);
                let i = choose|i: int| 0 <= i < before.len() && before[i] == list[k];
                assert(kept[i] == list[k]);
            } else {
                assert(list[k] == kept.last());
            }
        }
        assert forall|k: int, l: int|
            0 <= k < list.len() && 0 <= l < list.len() && k != l implies list[k] != list[l] by {
            let n = edges_at(before, v).len();
            if k < n && l < n {
                assert(list[k] == edges_at(before, v)[k] && list[l] == edges_at(before, v)[l]);
            } else if k < n {
                let i = choose|i: int| 0 <= i < before.len() && before[i] == edges_at(before, v)[k];
                assert(before.contains(edges_at(before, v)[k]));
                assert(kept[i] == list[k] && kept.last() == list[l]);
                assert(kept[kept.len() - 1] == list[l]);
            } else {
                let i = choose|i: int| 0 <= i < before.len() && before[i] == edges_at(before, v)[l];
                assert(before.contains(edges_at(before, v)[l]));
                assert(kept[i] == list[l] && kept.last() == list[k]);
                assert(kept[kept.len() - 1] == list[k]);
            }
        }
    }
}

/// The end of an edge that is not on the side of `v`.
spec fn far_end(v: End, e: Edge) -> u32 {
    match v {
        End::A(_) => e.1,
        End::B(_) => e.0,
    }
}

/// Does the far end of `e` belong to no edge of the list but the one at `at`?
spec fn avoids(v: End, m: Seq<Edge>, at: int, e: Edge) -> bool {
    forall|l: int|
        0 <= l < m.len() && l != at ==> far_end(v, #[trigger] m[l]) != far_end(v, e)
}

/// A vertex with `d` edges has one that avoids the other vertices of a matching
/// of `d` edges.
proof fn lemma_free_edge(kept: Seq<Edge>, v: End, m: Seq<Edge>, at: int, d: nat) -> (e: Edge)
    requires
        kept.no_duplicates(),
        degree(kept, v) >= d,
        m.len() == d,
        0 <= at < d,
    ensures
        kept.contains(e),
        touches(v, e),
        avoids(v, m, at, e),
{
    let list = edges_at(kept, v);
    lemma_filter_facts(kept, v);
    if exists|k: int| 0 <= k < d && avoids(v, m, at, #[trigger] list[k]) {
        let k = choose|k: int| 0 <= k < d && avoids(v, m, at, #[trigger] list[k]);
        assert(kept.contains(list[k]));
        list[k]
    } else {
        // Each of the first `d` edges is blocked by a different edge of the matching.
        let s = Seq::new(
            d,
            |k: int|
                choose|l: int|
                    0 <= l < d && l != at && far_end(v, #[trigger] m[l]) == far_end(v, list[k]),
        );
        assert forall|k: int| 0 <= k < d implies 0 <= #[trigger] s[k] < d && s[k] != at && far_end(
            v,
            m[s[k]],
        ) == far_end(v, list[k]) by {
            assert(!avoids(v, m, at, list[k]));
        }
        let packed = s.map_values(|x: int| if x == d - 1 { at } else { x });
        assert forall|k: int, l: int| 0 <= k < d && 0 <= l < d && k != l implies packed[k]
            != packed[l] by {
            assert(list[k] != list[l]);
            assert(touches(v, list[k]) && touches(v, list[l]));
            assert(s[k] != s[l]);
        }
        assert forall|k: int| 0 <= k < packed.len() implies 0 <= #[trigger] packed[k] < d - 1 by {
            assert(0 <= s[k] < d);
        }
        lemma_pigeonhole(packed, (d - 1) as nat);
        list[0]
    }
}

/// Refusing edges at vertices that already have `d` of them does not cost a
/// matching of `d` edges.
pub proof fn lemma_capped(g: Set<Edge>, kept: Seq<Edge>, d: nat)
    requires
        has_matching(g, d),
        kept.no_duplicates(),
        forall|e: Edge| #[trigger]
            g.contains(e) ==> kept.contains(e) || degree(kept, End::A(e.0)) >= d || degree(
                kept,
                End::B(e.1),
            ) >= d,
    ensures
        has_matching(kept.to_set(), d),
{
    let m = choose|m: Seq<Edge>| #[trigger] is_matching(g, m) && m.len() == d;
    let out = lemma_capped_upto(g, kept, m, d, d);
    assert(is_matching(kept.to_set(), out));
}

/// Some list of `d` edges that share no vertex, the first `n` of them kept.
proof fn lemma_capped_upto(g: Set<Edge>, kept: Seq<Edge>, m: Seq<Edge>, d: nat, n: nat) -> (out:
    Seq<Edge>)
    requires
        is_matching(g, m),
        m.len() == d,
        n <= d,
        kept.no_duplicates(),
        forall|e: Edge| #[trigger]
            g.contains(e) ==> kept.contains(e) || degree(kept, End::A(e.0)) >= d || degree(
                kept,
                End::B(e.1),
            ) >= d,
    ensures
        out.len() == d,
        forall|k: int, l: int|
            0 <= k < d && 0 <= l < d && k != l ==> (#[trigger] out[k]).0 != (#[trigger] out[l]).0
                && out[k].1 != out[l].1,
        forall|k: int| 0 <= k < n ==> kept.contains(#[trigger] out[k]),
        forall|k: int| n <= k < d ==> #[trigger] out[k] == m[k],
    decreases n,
{
    if n == 0 {
        m
    } else {
        let before = lemma_capped_upto(g, kept, m, d, (n - 1) as nat);
        let at = n - 1;
        let e = before[at];
        assert(e == m[at]);
        assert(g.contains(e));
        if kept.contains(e) {
            before
        } else if degree(kept, End::A(e.0)) >= d {
            let f = lemma_free_edge(kept, End::A(e.0), before, at, d);
            assert forall|l: int| 0 <= l < d && l != at implies (#[trigger] before[l]).1 != f.1 by {
                assert(far_end(End::A(e.0), before[l]) != far_end(End::A(e.0), f));
            }
            before.update(at, f)
        } else {
            let f = lemma_free_edge(kept, End::B(e.1), before, at, d);
            assert forall|l: int| 0 <= l < d && l != at implies (#[trigger] before[l]).0 != f.0 by {
                assert(far_end(End::B(e.1), before[l]) != far_end(End::B(e.1), f));
            }
            before.update(at, f)
        }
    }
}

/// A way along a matching `m` from a free vertex `start`: each step crosses to
/// the far end of a matched pair by an edge, and back along the pair.
spec fn is_chain(g: Set<Edge>, m: Seq<Edge>, start: u32, chain: Seq<int>) -> bool {
    &&& forall|k: int| 0 <= k < m.len() ==> (#[trigger] m[k]).0 != start
    &&& chain.no_duplicates()
    &&& forall|i: int| 0 <= i < chain.len() ==> 0 <= #[trigger] chain[i] < m.len()
    &&& chain.len() > 0 ==> g.contains((start, m[chain[0]].1))
    &&& forall|i: int, j: int|
        0 <= i < chain.len() && j == i + 1 && j < chain.len() ==> g.contains(
            (m[#[trigger] chain[i]].0, m[#[trigger] chain[j]].1),
        )
}

/// The vertex a chain ends on.
spec fn chain_end(m: Seq<Edge>, start: u32, chain: Seq<int>) -> u32 {
    if chain.len() == 0 {
        start
    } else {
        m[chain.last()].0
    }
}

/// A chain that ends beside a free vertex makes room for one more pair.
proof fn lemma_flip(g: Set<Edge>, m: Seq<Edge>, start: u32, chain: Seq<int>, b: u32)
    requires
        is_matching(g, m),
        is_chain(g, m, start, chain),
        forall|k: int| 0 <= k < m.len() ==> (#[trigger] m[k]).1 != b,
        g.contains((chain_end(m, start, chain), b)),
    ensures
        has_matching(g, m.len() + 1),
    decreases chain.len(),
{
    if chain.len() == 0 {
        let longer = m.push((start, b));
        assert forall|k: int| 0 <= k < longer.len() implies g.contains(#[trigger] longer[k]) by {
            if k < m.len() {
                assert(longer[k] == m[k]);
            }
        }
        assert forall|k: int, l: int|
            0 <= k < longer.len() && 0 <= l < longer.len() && k != l implies (
        #[trigger] longer[k]).0 != (#[trigger] longer[l]).0 && longer[k].1 != longer[l].1 by {
            if k < m.len() && l < m.len() {
                assert(longer[k] == m[k] && longer[l] == m[l]);
            } else if k < m.len() {
                assert(longer[k] == m[k]);
            } else {
                assert(longer[l] == m[l]);
            }
        }
        assert(is_matching(g, longer));
    } else {
        let p = chain.last();
        let freed = m[p].1;
        let moved = m.update(p, (m[p].0, b));
        let shorter = chain.drop_last();
        assert forall|k: int| 0 <= k < moved.len() implies g.contains(#[trigger] moved[k]) by {
            assert(g.contains(m[k]));
        }
        assert forall|k: int, l: int|
            0 <= k < moved.len() && 0 <= l < moved.len() && k != l implies (#[trigger] moved[k]).0
            != (#[trigger] moved[l]).0 && moved[k].1 != moved[l].1 by {
            assert(m[k].0 != m[l].0 && m[k].1 != m[l].1);
        }
        assert(is_matching(g, moved));
        assert forall|k: int| 0 <= k < moved.len() implies (#[trigger] moved[k]).1 != freed by {
            if k != p {
                assert(m[k].1 != m[p].1);
            } else {
                assert(m[p].1 != b);
            }
        }
        assert forall|i: int| 0 <= i < shorter.len() implies m[#[trigger] shorter[i]]
            == moved[shorter[i]] by {
            assert(shorter[i] == chain[i]);
            assert(chain[i] != chain[chain.len() - 1]);
        }
        assert(is_chain(g, moved, start, shorter)) by {
            assert forall|k: int| 0 <= k < moved.len() implies (#[trigger] moved[k]).0 != start by {
                assert(m[k].0 != start);
            }
            assert forall|i: int, j: int|
                0 <= i < shorter.len() && j == i + 1 && j < shorter.len() implies g.contains(
                (moved[#[trigger] shorter[i]].0, moved[#[trigger] shorter[j]].1),
            ) by {
                assert(g.contains((m[chain[i]].0, m[chain[j]].1)));
            }
            if shorter.len() > 0 {
                assert(shorter[0] == chain[0]);
                assert(m[shorter[0]] == moved[shorter[0]]);
            }
        }
        if shorter.len() > 0 {
            let last = shorter.len() - 1;
            assert(shorter[last] == chain[last]);
            assert(g.contains((m[chain[last]].0, m[chain[last + 1]].1)));
            assert(m[shorter[last]] == moved[shorter[last]]);
        }
        lemma_flip(g, moved, start, shorter, freed);
    }
}

/// Can the matched pair `p` be reached by a chain?
spec fn is_reached(g: Set<Edge>, m: Seq<Edge>, p: int) -> bool {
    exists|start: u32, chain: Seq<int>| #[trigger]
        is_chain(g, m, start, chain) && chain.len() > 0 && chain.last() == p
}

/// The vertex of a matched pair that a cover takes.
spec fn cover_vertex(g: Set<Edge>, m: Seq<Edge>, p: int) -> End {
    if is_reached(g, m, p) {
        End::B(m[p].1)
    } else {
        End::A(m[p].0)
    }
}

/// When no larger matching exists, one vertex of each pair touches every edge.
proof fn lemma_koenig(g: Set<Edge>, m: Seq<Edge>, e: Edge) -> (p: int)
    requires
        is_matching(g, m),
        !has_matching(g, m.len() + 1),
        g.contains(e),
    ensures
        0 <= p < m.len(),
        touches(cover_vertex(g, m, p), e),
{
    let (a, b) = e;
    if exists|q: int| 0 <= q < m.len() && (#[trigger] m[q]).0 == a {
        let q = choose|q: int| 0 <= q < m.len() && (#[trigger] m[q]).0 == a;
        if !is_reached(g, m, q) {
            q
        } else {
            let (start, chain) = choose|start: u32, chain: Seq<int>| #[trigger]
                is_chain(g, m, start, chain) && chain.len() > 0 && chain.last() == q;
            if exists|p: int| 0 <= p < m.len() && (#[trigger] m[p]).1 == b {
                let p = choose|p: int| 0 <= p < m.len() && (#[trigger] m[p]).1 == b;
                if chain.contains(p) {
                    let i = choose|i: int| 0 <= i < chain.len() && chain[i] == p;
                    lemma_prefix_chain(g, m, start, chain, i + 1);
                    assert(chain.take(i + 1).last() == p);
                } else {
                    let longer = chain.push(p);
                    assert(is_chain(g, m, start, longer)) by {
                        assert forall|i: int, j: int|
                            0 <= i < longer.len() && j == i + 1 && j
                                < longer.len() implies g.contains(
                            (m[#[trigger] longer[i]].0, m[#[trigger] longer[j]].1),
                        ) by {
                            if j < chain.len() {
                                assert(g.contains((m[chain[i]].0, m[chain[j]].1)));
                            } else {
                                assert(longer[i] == q);
                            }
                        }
                        assert(longer[0] == chain[0]);
                    }
                    assert(longer.last() == p);
                }
                p
            } else {
                lemma_flip(g, m, start, chain, b);
                q
            }
        }
    } else {
        if exists|p: int| 0 <= p < m.len() && (#[trigger] m[p]).1 == b {
            let p = choose|p: int| 0 <= p < m.len() && (#[trigger] m[p]).1 == b;
            let chain = seq![p];
            assert(is_chain(g, m, a, chain));
            assert(chain.last() == p);
            p
        } else {
            let chain = Seq::<int>::empty();
            assert(is_chain(g, m, a, chain));
            lemma_flip(g, m, a, chain, b);
            0
        }
    }
}

proof fn lemma_prefix_chain(g: Set<Edge>, m: Seq<Edge>, start: u32, chain: Seq<int>, n: int)
    requires
        is_chain(g, m, start, chain),
        0 < n <= chain.len(),
    ensures
        is_chain(g, m, start, chain.take(n)),
{
    let part = chain.take(n);
    assert forall|i: int, j: int|
        0 <= i < part.len() && j == i + 1 && j < part.len() implies g.contains(
        (m[#[trigger] part[i]].0, m[#[trigger] part[j]].1),
    ) by {
        assert(g.contains((m[chain[i]].0, m[chain[j]].1)));
    }
    assert(part[0] == chain[0]);
}

/// Edges that all touch one of `n` vertices, each of which has at most `d`, are at
/// most `n * d`.
proof fn lemma_count_cover(kept: Seq<Edge>, cover: Seq<End>, d: nat)
    requires
        forall|k: int| 0 <= k < kept.len() ==> is_covered(cover, #[trigger] kept[k]),
        forall|c: int| 0 <= c < cover.len() ==> degree(kept, #[trigger] cover[c]) <= d,
    ensures
        kept.len() <= cover.len() * d,
    decreases cover.len(),
{
    if cover.len() == 0 {
        if kept.len() > 0 {
            assert(is_covered(cover, kept[0]));
        }
    } else {
        let v = cover.last();
        let rest = kept.filter(|e: Edge| !touches(v, e));
        let fewer = cover.drop_last();
        lemma_split(kept, v);
        assert forall|k: int| 0 <= k < rest.len() implies is_covered(fewer, #[trigger] rest[k]) by {
            lemma_filter_member(kept, |e: Edge| !touches(v, e), k);
            let i = choose|i: int| 0 <= i < kept.len() && kept[i] == rest[k];
            assert(is_covered(cover, kept[i]));
            let c = choose|c: int|
                0 <= c < cover.len() && touches(#[trigger] cover[c], kept[i]);
            assert(c != cover.len() - 1);
            assert(fewer[c] == cover[c]);
        }
        assert forall|c: int| 0 <= c < fewer.len() implies degree(rest, #[trigger] fewer[c])
            <= d by {
            assert(fewer[c] == cover[c]);
            lemma_filter_shrinks(kept, v, cover[c]);
        }
        lemma_count_cover(rest, fewer, d);
        assert(cover[cover.len() - 1] == v);
        assert(degree(kept, v) <= d);
        assert(fewer.len() * d + d == cover.len() * d) by (nonlinear_arith)
            requires
                fewer.len() + 1 == cover.len(),
        ;
    }
}

proof fn lemma_split(kept: Seq<Edge>, v: End)
    ensures
        kept.len() == degree(kept, v) + kept.filter(|e: Edge| !touches(v, e)).len(),
    decreases kept.len(),
{
    reveal(Seq::filter);
    if kept.len() > 0 {
        lemma_split(kept.drop_last(), v);
    }
}

proof fn lemma_filter_member(kept: Seq<Edge>, keep: spec_fn(Edge) -> bool, k: int)
    requires
        0 <= k < kept.filter(keep).len(),
    ensures
        keep(kept.filter(keep)[k]),
        exists|i: int| 0 <= i < kept.len() && kept[i] == kept.filter(keep)[k],
    decreases kept.len(),
{
    reveal(Seq::filter);
    if kept.len() > 0 {
        let before = kept.drop_last();
        let list = kept.filter(keep);
        if k < before.filter(keep).len() {
            lemma_filter_member(before, keep, k);
            let i = choose|i: int| 0 <= i < before.len() && before[i] == before.filter(keep)[k];
            assert(kept[i] == list[k]);
        } else {
            assert(kept[kept.len() - 1] == list[k]);
        }
    }
}

proof fn lemma_filter_shrinks(kept: Seq<Edge>, v: End, w: End)
    ensures
        degree(kept.filter(|e: Edge| !touches(v, e)), w) <= degree(kept, w),
    decreases kept.len(),
{
    reveal(Seq::filter);
    if kept.len() > 0 {
        let keep = |e: Edge| !touches(v, e);
        let before = kept.drop_last();
        lemma_filter_shrinks(before, v, w);
        assert(before.push(kept.last()) =~= kept);
        lemma_degree_push(before, kept.last(), w);
        if keep(kept.last()) {
            assert(kept.filter(keep) =~= before.filter(keep).push(kept.last()));
            lemma_degree_push(before.filter(keep), kept.last(), w);
        } else {
            assert(kept.filter(keep) =~= before.filter(keep));
        }
    }
}

/// A graph where no vertex has more than `d` edges, with more than `d * (d - 1)`
/// of them, has a matching of `d`.
pub proof fn lemma_many_edges(kept: Seq<Edge>, d: nat)
    requires
        d > 0,
        kept.no_duplicates(),
        forall|v: End| #[trigger] degree(kept, v) <= d,
        kept.len() > d * (d - 1),
    ensures
        has_matching(kept.to_set(), d),
{
    let g = kept.to_set();
    if !has_matching(g, d) {
        lemma_empty(g);
        let s = lemma_largest(g, d, 0);
        let m = choose|m: Seq<Edge>| #[trigger] is_matching(g, m) && m.len() == s;
        let cover = Seq::new(s, |p: int| cover_vertex(g, m, p));
        assert forall|k: int| 0 <= k < kept.len() implies is_covered(cover, #[trigger] kept[k]) by {
            assert(g.contains(kept[k]));
            let p = lemma_koenig(g, m, kept[k]);
            assert(touches(cover[p], kept[k]));
        }
        lemma_count_cover(kept, cover, d);
        assert(s * d <= d * (d - 1)) by (nonlinear_arith)
            requires
                s <= d - 1,
                d > 0,
        ;
    }
}

/// The size of a largest matching, from one that exists to one that does not.
proof fn lemma_largest(g: Set<Edge>, d: nat, from: nat) -> (s: nat)
    requires
        has_matching(g, from),
        !has_matching(g, d),
        from <= d,
    ensures
        s < d,
        has_matching(g, s),
        !has_matching(g, s + 1),
    decreases d - from,
{
    if has_matching(g, from + 1) {
        lemma_largest(g, d, from + 1)
    } else {
        from
    }
}

} // verus!
