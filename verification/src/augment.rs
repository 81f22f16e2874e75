//! Growing a matching one augmenting path at a time.

use crate::matching::{is_covered, is_matching, lemma_cover, touches, Edge, End};
use vstd::prelude::*;

verus! {

/// An unmatched vertex, and an unused slot.
pub const NO_VERTEX: u32 = u32::MAX;

/// One sample of one video, as the matching sees it: which sample it is, how
/// many edges it has been given, and what it is currently paired with.
#[derive(Clone, Copy, Debug)]
pub struct Vertex {
    pub sample: u32,
    pub degree: u32,
    pub mate: u32,
}

/// What each vertex of a side is paired with.
pub open spec fn mates(side: Seq<Vertex>) -> Seq<u32> {
    side.map_values(|v: Vertex| v.mate)
}

/// The two sides agree on who is paired with whom, and every pair is an edge.
pub open spec fn mates_agree(h: Set<Edge>, ma: Seq<u32>, mb: Seq<u32>) -> bool {
    &&& ma.len() < NO_VERTEX
    &&& mb.len() < NO_VERTEX
    &&& forall|x: int|
        0 <= x < ma.len() && #[trigger] ma[x] != NO_VERTEX ==> ma[x] < mb.len() && mb[ma[x] as int]
            == x && h.contains((x as u32, ma[x]))
    &&& forall|y: int|
        0 <= y < mb.len() && #[trigger] mb[y] != NO_VERTEX ==> mb[y] < ma.len() && ma[mb[y] as int]
            == y
}

/// Every edge joins two vertices there are.
pub open spec fn edges_fit(h: Set<Edge>, a: nat, b: nat) -> bool {
    forall|e: Edge| #[trigger] h.contains(e) ==> e.0 < a && e.1 < b
}

/// Vertices of one side that are all paired, and whose partners lead nowhere else.
pub open spec fn is_closed(h: Set<Edge>, mb: Seq<u32>, s: Set<u32>) -> bool {
    forall|y: u32| #[trigger]
        s.contains(y) ==> y < mb.len() && mb[y as int] != NO_VERTEX && leads_into(
            h,
            mb[y as int],
            s,
        )
}

/// Every edge of `a` ends in `s`.
pub open spec fn leads_into(h: Set<Edge>, a: u32, s: Set<u32>) -> bool {
    forall|z: u32| #[trigger] h.contains((a, z)) ==> s.contains(z)
}

/// The vertices flagged.
pub open spec fn flagged(seen: Seq<bool>) -> Set<u32> {
    Set::new(|y: u32| y < seen.len() && seen[y as int])
}

/// How many flags are still down.
pub open spec fn unseen(seen: Seq<bool>) -> nat
    decreases seen.len(),
{
    if seen.len() == 0 {
        0
    } else {
        unseen(seen.drop_last()) + (if seen.last() {
            0nat
        } else {
            1nat
        })
    }
}

proof fn lemma_unseen(before: Seq<bool>, after: Seq<bool>)
    requires
        before.len() == after.len(),
        forall|y: int| 0 <= y < before.len() && #[trigger] before[y] ==> after[y],
    ensures
        unseen(after) <= unseen(before),
        (exists|y: int| 0 <= y < before.len() && !before[y] && #[trigger] after[y]) ==> unseen(after)
            < unseen(before),
    decreases before.len(),
{
    if before.len() > 0 {
        let b = before.drop_last();
        let a = after.drop_last();
        assert forall|y: int| 0 <= y < b.len() && #[trigger] b[y] implies a[y] by {
            assert(before[y]);
        }
        lemma_unseen(b, a);
        assert(before.last() ==> after.last()) by {
            assert(before[before.len() - 1] == before.last());
        }
        if exists|y: int| 0 <= y < before.len() && !before[y] && #[trigger] after[y] {
            let y = choose|y: int| 0 <= y < before.len() && !before[y] && #[trigger] after[y];
            if y < b.len() {
                assert(!b[y] && a[y]);
            }
        }
    }
}

/// What a successful step did: `a` is paired, everything else that was paired
/// still is, and only the pair `a` gave up is left behind on the far side.
pub open spec fn is_augmented(
    h: Set<Edge>,
    a: u32,
    ma: Seq<u32>,
    mb: Seq<u32>,
    na: Seq<u32>,
    nb: Seq<u32>,
) -> bool {
    &&& na.len() == ma.len()
    &&& nb.len() == mb.len()
    &&& na[a as int] != NO_VERTEX
    &&& na[a as int] != ma[a as int]
    &&& forall|x: int|
        0 <= x < na.len() && x != a ==> (#[trigger] na[x] == NO_VERTEX <==> ma[x] == NO_VERTEX)
    &&& forall|x: int|
        0 <= x < na.len() && #[trigger] na[x] != NO_VERTEX ==> na[x] < nb.len() && nb[na[x] as int]
            == x && h.contains((x as u32, na[x]))
    &&& forall|y: int|
        0 <= y < nb.len() && #[trigger] nb[y] != NO_VERTEX ==> nb[y] < na.len() && (na[nb[y] as int]
            == y || (y == ma[a as int] && nb[y] == a))
}

/// A step cannot disturb a closed set, nor start inside one.
pub open spec fn keeps_closed(h: Set<Edge>, a: u32, mb: Seq<u32>, nb: Seq<u32>) -> bool {
    forall|s: Set<u32>| #[trigger]
        is_closed(h, mb, s) ==> !leads_into(h, a, s) && forall|y: u32| #[trigger]
            s.contains(y) ==> nb[y as int] == mb[y as int]
}

/// The same vertices, whoever they are paired with.
pub open spec fn same_vertices(before: Seq<Vertex>, after: Seq<Vertex>) -> bool {
    &&& before.len() == after.len()
    &&& forall|x: int|
        0 <= x < before.len() ==> (#[trigger] after[x]).sample == before[x].sample
            && after[x].degree == before[x].degree
}

/// One augmenting step of the matching: find an alternating path from `a` to an
/// unmatched vertex of the other side, and flip it.
///
/// On failure nothing is re-paired and the flags say why: everything `a` leads to
/// is flagged, and every vertex flagged on the way is paired with one that leads
/// only to flagged vertices.
pub fn augment(
    a: u32,
    edges: &Vec<Edge>,
    side_a: &mut Vec<Vertex>,
    side_b: &mut Vec<Vertex>,
    seen: &mut Vec<bool>,
) -> (found: bool)
    requires
        a < old(side_a)@.len(),
        old(seen)@.len() == old(side_b)@.len(),
        edges_fit(edges@.to_set(), old(side_a)@.len(), old(side_b)@.len()),
        mates_agree(edges@.to_set(), mates(old(side_a)@), mates(old(side_b)@)),
        old(side_a)@[a as int].mate != NO_VERTEX ==> old(seen)@[old(
            side_a,
        )@[a as int].mate as int],
    ensures
        same_vertices(old(side_a)@, final(side_a)@),
        same_vertices(old(side_b)@, final(side_b)@),
        final(seen)@.len() == old(seen)@.len(),
        forall|y: int| 0 <= y < old(seen)@.len() && #[trigger] old(seen)@[y] ==> final(seen)@[y],
        !found ==> {
            &&& mates(final(side_a)@) == mates(old(side_a)@)
            &&& mates(final(side_b)@) == mates(old(side_b)@)
            &&& leads_into(edges@.to_set(), a, flagged(final(seen)@))
            &&& forall|y: int|
                0 <= y < final(seen)@.len() && #[trigger] final(seen)@[y] && !old(seen)@[y] ==> old(
                    side_b,
                )@[y].mate != NO_VERTEX && leads_into(
                    edges@.to_set(),
                    old(side_b)@[y].mate,
                    flagged(final(seen)@),
                )
        },
        found ==> {
            &&& is_augmented(
                edges@.to_set(),
                a,
                mates(old(side_a)@),
                mates(old(side_b)@),
                mates(final(side_a)@),
                mates(final(side_b)@),
            )
            &&& forall|y: int|
                0 <= y < old(seen)@.len() && #[trigger] old(seen)@[y] ==> final(side_b)@[y].mate
                    == old(side_b)@[y].mate
            &&& keeps_closed(
                edges@.to_set(),
                a,
                mates(old(side_b)@),
                mates(final(side_b)@),
            )
        },
    decreases unseen(old(seen)@),
{
    let ghost h = edges@.to_set();
    let ghost ma = mates(side_a@);
    let ghost mb = mates(side_b@);
    let ghost seen0 = seen@;
    let mut k: usize = 0;
    while k < edges.len()
        invariant
            h == edges@.to_set(),
            ma == mates(old(side_a)@),
            mb == mates(old(side_b)@),
            seen0 == old(seen)@,
            ma.len() == old(side_a)@.len(),
            mb.len() == old(side_b)@.len(),
            a < ma.len(),
            seen0.len() == mb.len(),
            edges_fit(h, ma.len(), mb.len()),
            mates_agree(h, ma, mb),
            ma[a as int] != NO_VERTEX ==> seen0[ma[a as int] as int],
            k <= edges@.len(),
            same_vertices(old(side_a)@, side_a@),
            same_vertices(old(side_b)@, side_b@),
            mates(side_a@) == ma,
            mates(side_b@) == mb,
            seen@.len() == seen0.len(),
            forall|y: int| 0 <= y < seen0.len() && #[trigger] seen0[y] ==> seen@[y],
            forall|l: int|
                0 <= l < k && (#[trigger] edges@[l]).0 == a ==> seen@[edges@[l].1 as int],
            forall|y: int|
                0 <= y < seen@.len() && #[trigger] seen@[y] && !seen0[y] ==> mb[y] != NO_VERTEX
                    && leads_into(h, mb[y], flagged(seen@)),
        decreases edges@.len() - k,
    {
        let (from, to) = edges[k];
        assert(h.contains((from, to))) by {
            assert(edges@.to_set().contains(edges@[k as int]));
        }
        if from == a && !seen[to as usize] {
            let ghost seen1 = seen@;
            seen.set(to as usize, true);
            let ghost seen2 = seen@;
            let held = side_b[to as usize].mate;
            assert(mb[to as int] == held);
            proof {
                assert(seen2[to as int] && !seen0[to as int]);
                lemma_unseen(seen0, seen2);
            }
            let ghost b2 = side_b@;
            let free: bool = if held == NO_VERTEX {
                true
            } else {
                assert(mates(side_a@)[held as int] == to);
                assert(side_a@[held as int].mate == to);
                augment(held, edges, side_a, side_b, seen)
            };
            proof {
                assert forall|y: int| 0 <= y < seen1.len() && #[trigger] seen1[y] implies seen@[y] by {
                    assert(seen2[y]);
                }
                assert forall|y: int| 0 <= y < seen0.len() && #[trigger] seen0[y] implies seen@[y] by {
                    assert(seen1[y]);
                }
                assert forall|y: u32| #[trigger] flagged(seen1).contains(y) implies flagged(
                    seen@,
                ).contains(y) by {
                    assert(seen1[y as int]);
                }
                assert(flagged(seen1).subset_of(flagged(seen@)));
                assert(seen2[to as int]);
                assert(seen@[to as int]);
            }
            if free {
                let ghost na = mates(side_a@);
                let ghost nb = mates(side_b@);
                assert forall|y: int| 0 <= y < seen0.len() && #[trigger] seen0[y] implies nb[y]
                    == mb[y] by {
                    assert(seen1[y]);
                    assert(seen2[y]);
                    if held != NO_VERTEX {
                        assert(side_b@[y].mate == b2[y].mate);
                        assert(mates(b2)[y] == mb[y]);
                    }
                }
                assert(nb[to as int] == mb[to as int]) by {
                    if held != NO_VERTEX {
                        assert(side_b@[to as int].mate == b2[to as int].mate);
                    }
                }
                let v = side_b[to as usize];
                side_b.set(
                    to as usize,
                    Vertex { sample: v.sample, degree: v.degree, mate: a },
                );
                let u = side_a[a as usize];
                side_a.set(
                    a as usize,
                    Vertex { sample: u.sample, degree: u.degree, mate: to },
                );
                proof {
                    let fa = mates(side_a@);
                    let fb = mates(side_b@);
                    assert(fa =~= na.update(a as int, to));
                    assert(fb =~= nb.update(to as int, a));
                    lemma_step_is_augmented(h, a, to, held, ma, mb, na, nb, seen0);
                    assert forall|y: int| 0 <= y < seen0.len() && #[trigger] seen0[y] implies fb[y]
                        == mb[y] by {
                        assert(nb[y] == mb[y]);
                    }
                    lemma_step_keeps_closed(h, a, to, held, mb, nb, fb);
                }
                return true;
            }
            proof {
                assert forall|l: int| 0 <= l < k + 1 && (#[trigger] edges@[l]).0
                    == a implies seen@[edges@[l].1 as int] by {
                    assert(edges@.to_set().contains(edges@[l]));
                    if l < k {
                        assert(seen1[edges@[l].1 as int]);
                    }
                }
                assert forall|y: int| 0 <= y < seen@.len() && #[trigger] seen@[y]
                    && !seen0[y] implies mb[y] != NO_VERTEX && leads_into(
                    h,
                    mb[y],
                    flagged(seen@),
                ) by {
                    if y == to {
                    } else if seen1[y] {
                        assert(leads_into(h, mb[y], flagged(seen1)));
                    } else {
                        assert(!seen2[y]);
                    }
                }
            }
        }
        k = k + 1;
    }
    proof {
        assert forall|z: u32| #[trigger] h.contains((a, z)) implies flagged(seen@).contains(z) by {
            assert(edges@.contains((a, z)));
            let l = choose|l: int| 0 <= l < edges@.len() && edges@[l] == (a, z);
            assert(edges@[l].0 == a);
        }
    }
    false
}

proof fn lemma_step_is_augmented(
    h: Set<Edge>,
    a: u32,
    to: u32,
    held: u32,
    ma: Seq<u32>,
    mb: Seq<u32>,
    na: Seq<u32>,
    nb: Seq<u32>,
    seen: Seq<bool>,
)
    requires
        mates_agree(h, ma, mb),
        a < ma.len(),
        to < mb.len(),
        seen.len() == mb.len(),
        h.contains((a, to)),
        held == mb[to as int],
        !seen[to as int],
        ma[a as int] != NO_VERTEX ==> seen[ma[a as int] as int],
        held == NO_VERTEX ==> na == ma && nb == mb,
        held != NO_VERTEX ==> is_augmented(h, held, ma, mb, na, nb),
        held != NO_VERTEX ==> forall|y: int|
            0 <= y < seen.len() && #[trigger] seen[y] ==> nb[y] == mb[y],
        held != NO_VERTEX ==> nb[to as int] == mb[to as int],
    ensures
        is_augmented(h, a, ma, mb, na.update(a as int, to), nb.update(to as int, a)),
{
    let fa = na.update(a as int, to);
    let fb = nb.update(to as int, a);
    assert(ma[a as int] != to);
    if held != NO_VERTEX {
        assert(ma[held as int] == to);
        assert(held != a);
        assert(na[held as int] != to);
        assert forall|x: int| 0 <= x < fa.len() && #[trigger] fa[x] != NO_VERTEX implies fa[x]
            < fb.len() && fb[fa[x] as int] == x && h.contains((x as u32, fa[x])) by {
            if x != a {
                assert(na[x] != NO_VERTEX);
                assert(nb[na[x] as int] == x);
                if na[x] == to {
                    assert(x == held);
                }
            }
        }
        assert forall|y: int| 0 <= y < fb.len() && #[trigger] fb[y] != NO_VERTEX implies fb[y]
            < fa.len() && (fa[fb[y] as int] == y || (y == ma[a as int] && fb[y] == a)) by {
            if y != to {
                assert(nb[y] != NO_VERTEX);
                assert(na[nb[y] as int] == y || (y == ma[held as int] && nb[y] == held));
                if nb[y] == a {
                    // `a` was still paired with `y`, so `y` is what it gives up.
                    assert(na[a as int] == y);
                    assert(na[a as int] != NO_VERTEX);
                    assert(ma[a as int] != NO_VERTEX);
                    assert(seen[ma[a as int] as int]);
                    assert(nb[ma[a as int] as int] == mb[ma[a as int] as int]);
                    assert(nb[ma[a as int] as int] == a);
                    assert(na[a as int] == ma[a as int] || (ma[a as int] == ma[held as int]));
                }
            }
        }
    } else {
        assert forall|x: int| 0 <= x < fa.len() && #[trigger] fa[x] != NO_VERTEX implies fa[x]
            < fb.len() && fb[fa[x] as int] == x && h.contains((x as u32, fa[x])) by {
            if x != a {
                assert(ma[x] != NO_VERTEX);
                assert(mb[ma[x] as int] == x);
            }
        }
        assert forall|y: int| 0 <= y < fb.len() && #[trigger] fb[y] != NO_VERTEX implies fb[y]
            < fa.len() && (fa[fb[y] as int] == y || (y == ma[a as int] && fb[y] == a)) by {
            if y != to {
                assert(mb[y] != NO_VERTEX);
                assert(ma[mb[y] as int] == y);
            }
        }
    }
}

proof fn lemma_step_keeps_closed(
    h: Set<Edge>,
    a: u32,
    to: u32,
    held: u32,
    mb: Seq<u32>,
    nb: Seq<u32>,
    fb: Seq<u32>,
)
    requires
        to < mb.len(),
        nb.len() == mb.len(),
        h.contains((a, to)),
        held == mb[to as int],
        held == NO_VERTEX ==> nb == mb,
        held != NO_VERTEX ==> keeps_closed(h, held, mb, nb),
        fb == nb.update(to as int, a),
    ensures
        keeps_closed(h, a, mb, fb),
{
    assert forall|s: Set<u32>| #[trigger] is_closed(h, mb, s) implies !leads_into(h, a, s)
        && forall|y: u32| #[trigger] s.contains(y) ==> fb[y as int] == mb[y as int] by {
        assert(!s.contains(to)) by {
            if s.contains(to) {
                assert(mb[to as int] != NO_VERTEX);
                assert(leads_into(h, held, s));
            }
        }
        assert(h.contains((a, to)));
    }
}

/// The pairs of a matching, from the `from`th vertex on.
pub open spec fn pairs(ma: Seq<u32>, from: int) -> Seq<Edge>
    decreases ma.len() - from,
{
    if from < 0 || from >= ma.len() {
        Seq::empty()
    } else if ma[from] == NO_VERTEX {
        pairs(ma, from + 1)
    } else {
        seq![(from as u32, ma[from])] + pairs(ma, from + 1)
    }
}

/// The unmatched vertices, from the `from`th on.
pub open spec fn singles(ma: Seq<u32>, from: int) -> Seq<u32>
    decreases ma.len() - from,
{
    if from < 0 || from >= ma.len() {
        Seq::empty()
    } else if ma[from] == NO_VERTEX {
        seq![from as u32] + singles(ma, from + 1)
    } else {
        singles(ma, from + 1)
    }
}

/// What the two lists hold.
pub proof fn lemma_pairs(ma: Seq<u32>, from: int)
    requires
        0 <= from <= ma.len(),
        ma.len() < NO_VERTEX,
    ensures
        forall|k: int|
            0 <= k < pairs(ma, from).len() ==> {
                let e = #[trigger] pairs(ma, from)[k];
                from <= e.0 < ma.len() && e.1 == ma[e.0 as int] && e.1 != NO_VERTEX
            },
        forall|k: int, l: int|
            0 <= k < l < pairs(ma, from).len() ==> (#[trigger] pairs(ma, from)[k]).0 < (
            #[trigger] pairs(ma, from)[l]).0,
        forall|x: int|
            from <= x < ma.len() && #[trigger] ma[x] != NO_VERTEX ==> pairs(ma, from).contains(
                (x as u32, ma[x]),
            ),
        forall|x: int|
            from <= x < ma.len() && #[trigger] ma[x] == NO_VERTEX ==> singles(ma, from).contains(
                x as u32,
            ),
        pairs(ma, from).len() + singles(ma, from).len() == ma.len() - from,
    decreases ma.len() - from,
{
    if from < ma.len() {
        lemma_pairs(ma, from + 1);
        let rest = pairs(ma, from + 1);
        let left = singles(ma, from + 1);
        let all = pairs(ma, from);
        let alone = singles(ma, from);
        if ma[from] == NO_VERTEX {
            assert(alone[0] == from);
            assert forall|x: int| from <= x < ma.len() && #[trigger] ma[x]
                == NO_VERTEX implies alone.contains(x as u32) by {
                if x > from {
                    let k = choose|k: int| 0 <= k < left.len() && left[k] == x as u32;
                    assert(left.contains(x as u32));
                    assert(alone[k + 1] == x as u32);
                }
            }
        } else {
            assert(all[0] == (from as u32, ma[from]));
            assert forall|k: int| 0 <= k < all.len() implies {
                let e = #[trigger] all[k];
                from <= e.0 < ma.len() && e.1 == ma[e.0 as int] && e.1 != NO_VERTEX
            } by {
                if k > 0 {
                    assert(all[k] == rest[k - 1]);
                }
            }
            assert forall|k: int, l: int| 0 <= k < l < all.len() implies (#[trigger] all[k]).0 < (
            #[trigger] all[l]).0 by {
                assert(all[l] == rest[l - 1]);
                if k > 0 {
                    assert(all[k] == rest[k - 1]);
                }
            }
            assert forall|x: int| from <= x < ma.len() && #[trigger] ma[x]
                != NO_VERTEX implies all.contains((x as u32, ma[x])) by {
                if x > from {
                    assert(rest.contains((x as u32, ma[x])));
                    let k = choose|k: int| 0 <= k < rest.len() && rest[k] == (x as u32, ma[x]);
                    assert(all[k + 1] == (x as u32, ma[x]));
                }
            }
        }
    }
}

/// Which vertices are matched decides how many pairs there are.
pub proof fn lemma_same_counts(ma: Seq<u32>, na: Seq<u32>, from: int)
    requires
        0 <= from <= ma.len(),
        na.len() == ma.len(),
        forall|x: int|
            from <= x < ma.len() ==> (#[trigger] na[x] == NO_VERTEX <==> ma[x] == NO_VERTEX),
    ensures
        pairs(na, from).len() == pairs(ma, from).len(),
        singles(na, from).len() == singles(ma, from).len(),
    decreases ma.len() - from,
{
    if from < ma.len() {
        assert(na[from] == NO_VERTEX <==> ma[from] == NO_VERTEX);
        lemma_same_counts(ma, na, from + 1);
    }
}

/// Matching one more vertex makes one more pair.
pub proof fn lemma_one_more(ma: Seq<u32>, na: Seq<u32>, a: int, from: int)
    requires
        0 <= from <= a < ma.len(),
        na.len() == ma.len(),
        ma[a] == NO_VERTEX,
        na[a] != NO_VERTEX,
        forall|x: int|
            from <= x < ma.len() && x != a ==> (#[trigger] na[x] == NO_VERTEX <==> ma[x]
                == NO_VERTEX),
    ensures
        pairs(na, from).len() == pairs(ma, from).len() + 1,
    decreases a - from,
{
    if from == a {
        lemma_same_counts(ma, na, from + 1);
    } else {
        assert(na[from] == NO_VERTEX <==> ma[from] == NO_VERTEX);
        lemma_one_more(ma, na, a, from + 1);
    }
}

/// The pairs are a matching.
pub proof fn lemma_pairs_match(h: Set<Edge>, ma: Seq<u32>, mb: Seq<u32>)
    requires
        mates_agree(h, ma, mb),
    ensures
        is_matching(h, pairs(ma, 0)),
{
    lemma_pairs(ma, 0);
    let m = pairs(ma, 0);
    assert forall|k: int| 0 <= k < m.len() implies h.contains(#[trigger] m[k]) by {
        assert(ma[m[k].0 as int] != NO_VERTEX);
    }
    assert forall|k: int, l: int| 0 <= k < m.len() && 0 <= l < m.len() && k != l implies (
    #[trigger] m[k]).0 != (#[trigger] m[l]).0 && m[k].1 != m[l].1 by {
        if k < l {
            assert(m[k].0 < m[l].0);
        } else {
            assert(m[l].0 < m[k].0);
        }
        assert(mb[ma[m[k].0 as int] as int] == m[k].0);
        assert(mb[ma[m[l].0 as int] as int] == m[l].0);
    }
}

/// No matching outruns the pairs made plus the vertices still to be tried, when
/// every other unmatched vertex leads only into a closed set.
pub proof fn lemma_nothing_left(
    h: Set<Edge>,
    ma: Seq<u32>,
    mb: Seq<u32>,
    s: Set<u32>,
    from: int,
    m: Seq<Edge>,
)
    requires
        mates_agree(h, ma, mb),
        edges_fit(h, ma.len(), mb.len()),
        is_closed(h, mb, s),
        0 <= from <= ma.len(),
        forall|x: int|
            0 <= x < from && #[trigger] ma[x] == NO_VERTEX ==> leads_into(h, x as u32, s),
        is_matching(h, m),
    ensures
        m.len() <= pairs(ma, 0).len() + singles(ma, from).len(),
{
    let made = pairs(ma, 0);
    let free = singles(ma, from);
    lemma_pairs(ma, 0);
    lemma_pairs(ma, from);
    let n = made.len() as int;
    let cover = Seq::new(
        made.len() + free.len(),
        |c: int|
            if c < n {
                if s.contains(made[c].1) {
                    End::B(made[c].1)
                } else {
                    End::A(made[c].0)
                }
            } else {
                End::A(free[c - n])
            },
    );
    assert forall|e: Edge| #[trigger] h.contains(e) implies is_covered(cover, e) by {
        let x = e.0 as int;
        if ma[x] == NO_VERTEX {
            if x >= from {
                assert(free.contains(e.0));
                let k = choose|k: int| 0 <= k < free.len() && free[k] == e.0;
                assert(touches(cover[k + n], e));
            } else {
                assert(leads_into(h, e.0, s));
                assert(h.contains((e.0, e.1)));
                assert(s.contains(e.1));
                lemma_pair_of(h, ma, mb, e.1);
                let k = choose|k: int| 0 <= k < made.len() && (#[trigger] made[k]).1 == e.1;
                assert(touches(cover[k], e));
            }
        } else {
            assert(made.contains((e.0, ma[x])));
            let k = choose|k: int| 0 <= k < made.len() && made[k] == (e.0, ma[x]);
            if s.contains(ma[x]) {
                assert(mb[ma[x] as int] == x);
                assert(leads_into(h, mb[ma[x] as int], s));
                assert(h.contains((e.0, e.1)));
                assert(s.contains(e.1));
                lemma_pair_of(h, ma, mb, e.1);
                let l = choose|l: int| 0 <= l < made.len() && (#[trigger] made[l]).1 == e.1;
                assert(touches(cover[l], e));
            } else {
                assert(touches(cover[k], e));
            }
        }
    }
    lemma_cover(h, m, cover);
}

proof fn lemma_pair_of(h: Set<Edge>, ma: Seq<u32>, mb: Seq<u32>, y: u32)
    requires
        mates_agree(h, ma, mb),
        y < mb.len(),
        mb[y as int] != NO_VERTEX,
    ensures
        exists|k: int| 0 <= k < pairs(ma, 0).len() && (#[trigger] pairs(ma, 0)[k]).1 == y,
{
    lemma_pairs(ma, 0);
    let x = mb[y as int] as int;
    assert(ma[x] == y);
    assert(pairs(ma, 0).contains((x as u32, ma[x])));
    let k = choose|k: int| 0 <= k < pairs(ma, 0).len() && pairs(ma, 0)[k] == (x as u32, ma[x]);
    assert(pairs(ma, 0)[k].1 == y);
}

} // verus!
