//! Whether a frame match has enough *distinct* other frame matches agreeing with
//! it about the time offset.
//!
//! One alignment window is a bipartite graph: the samples of one video on one
//! side, the samples of the other on the other, one edge per frame match. A
//! witness must be a different sample from the candidate on both sides and from
//! every other witness on both sides, so the witnesses are a matching in that
//! graph, and the quota is met when the largest matching reaches it.

use crate::augment::{
    augment, edges_fit, flagged, is_closed, leads_into, lemma_nothing_left, lemma_one_more,
    lemma_pairs, lemma_pairs_match, lemma_same_counts, mates, mates_agree, pairs, same_vertices,
    singles, Vertex, NO_VERTEX,
};
use crate::bits::{has_bit, lemma_set_bit, ones};
use crate::matching::{
    degree, has_matching, is_covered, is_matching, lemma_capped, lemma_cover, lemma_degree_push,
    lemma_empty, lemma_half, lemma_many_edges, lemma_pigeonhole, lemma_shorter, lemma_wider,
    touches, Edge, End,
};
use vstd::prelude::*;

verus! {

/// A frame match kept for corroboration: the time offset it implies, the sample
/// it pairs on each side, and how far apart the two hashes were.
pub type Aligned = (i64, u32, u32, u32);

/// The most witnesses any distance can be asked for.
pub const MAX_WITNESSES: usize = 64;

/// Is `e` the samples of some row of the window?
pub open spec fn is_row(window: Seq<Aligned>, e: Edge) -> bool {
    exists|r: int| 0 <= r < window.len() && (#[trigger] window[r]).1 == e.0 && window[r].2 == e.1
}

/// The sample pairs in one alignment window that could witness a candidate: the
/// ones that are a different sample from it on both sides.
pub open spec fn eligible(window: Seq<Aligned>, i: u32, j: u32) -> Set<Edge> {
    Set::new(|e: Edge| is_row(window, e) && e.0 != i && e.1 != j)
}

/// No two rows pair the same two samples.
pub open spec fn rows_differ(window: Seq<Aligned>) -> bool {
    forall|r: int, q: int|
        0 <= r < window.len() && 0 <= q < window.len() && r != q ==> (#[trigger] window[r]).1 != (
        #[trigger] window[q]).1 || window[r].2 != window[q].2
}

/// Every row names samples there are.
pub open spec fn rows_fit(window: Seq<Aligned>, a: nat, b: nat) -> bool {
    forall|r: int|
        0 <= r < window.len() ==> (#[trigger] window[r]).1 < a && window[r].2 < b
}

/// Sample numbers point to vertices and back.
spec fn slots_agree(slots: Seq<u32>, side: Seq<Vertex>) -> bool {
    &&& side.len() < NO_VERTEX
    &&& forall|x: int|
        0 <= x < side.len() ==> (#[trigger] side[x]).sample < slots.len()
            && slots[side[x].sample as int] == x
    &&& forall|s: int|
        0 <= s < slots.len() && #[trigger] slots[s] != NO_VERTEX ==> slots[s] < side.len()
            && side[slots[s] as int].sample == s
}

/// Scratch space for deciding the matchings of one pair of videos, reused for
/// every window.
pub struct Witnesses {
    samples_a: usize,
    samples_b: usize,
    taken: Vec<Edge>,
    slot_a: Vec<u32>,
    slot_b: Vec<u32>,
    side_a: Vec<Vertex>,
    side_b: Vec<Vertex>,
    edges: Vec<Edge>,
    seen: Vec<bool>,
}

/// A row too few to meet the quota: no matching outruns the rows that are not the
/// candidate's own.
proof fn lemma_window_bound(window: Seq<Aligned>, i: u32, j: u32, m: Seq<Edge>)
    requires
        is_row(window, (i, j)),
        is_matching(eligible(window, i, j), m),
    ensures
        m.len() < window.len(),
{
    let own = choose|r: int|
        0 <= r < window.len() && (#[trigger] window[r]).1 == i && window[r].2 == j;
    let s = Seq::new(
        m.len(),
        |k: int|
            choose|r: int|
                0 <= r < window.len() && (#[trigger] window[r]).1 == m[k].0 && window[r].2
                    == m[k].1,
    ).push(own);
    assert forall|k: int| 0 <= k < m.len() implies 0 <= #[trigger] s[k] < window.len()
        && window[s[k]].1 == m[k].0 && window[s[k]].2 == m[k].1 by {
        assert(eligible(window, i, j).contains(m[k]));
        assert(is_row(window, m[k]));
    }
    assert forall|k: int, l: int| 0 <= k < s.len() && 0 <= l < s.len() && k != l implies s[k]
        != s[l] by {
        if k < m.len() && l < m.len() {
            assert(m[k].0 != m[l].0);
        } else if k < m.len() {
            assert(eligible(window, i, j).contains(m[k]));
        } else {
            assert(eligible(window, i, j).contains(m[l]));
        }
    }
    assert forall|k: int| 0 <= k < s.len() implies 0 <= #[trigger] s[k] < window.len() by {}
    lemma_pigeonhole(s, window.len());
}

/// A matching is no larger than the number of samples on either side.
proof fn lemma_width(g: Set<Edge>, list: Seq<u32>, left: bool, m: Seq<Edge>)
    requires
        is_matching(g, m),
        forall|e: Edge| #[trigger] g.contains(e) ==> list.contains(end_of(e, left)),
    ensures
        m.len() <= list.len(),
{
    let cover = list.map_values(
        |s: u32|
            if left {
                End::A(s)
            } else {
                End::B(s)
            },
    );
    assert forall|e: Edge| #[trigger] g.contains(e) implies is_covered(cover, e) by {
        let end = end_of(e, left);
        assert(list.contains(end));
        let c = choose|c: int| 0 <= c < list.len() && list[c] == end;
        assert(touches(cover[c], e));
    }
    lemma_cover(g, m, cover);
}

/// The rows of a window up to one more.
proof fn lemma_row_push(window: Seq<Aligned>, r: int, e: Edge)
    requires
        0 <= r < window.len(),
    ensures
        is_row(window.take(r + 1), e) <==> is_row(window.take(r), e) || e == (
            window[r].1,
            window[r].2,
        ),
{
    let more = window.take(r + 1);
    let less = window.take(r);
    if is_row(more, e) {
        let q = choose|q: int|
            0 <= q < more.len() && (#[trigger] more[q]).1 == e.0 && more[q].2 == e.1;
        if q < r {
            assert(less[q] == more[q]);
        }
    }
    if is_row(less, e) {
        let q = choose|q: int|
            0 <= q < less.len() && (#[trigger] less[q]).1 == e.0 && less[q].2 == e.1;
        assert(more[q] == less[q]);
    }
    if e == (window[r].1, window[r].2) {
        assert(more[r] == window[r]);
    }
}

/// One more row makes at most one more pair eligible.
proof fn lemma_eligible_push(window: Seq<Aligned>, r: int, i: u32, j: u32, e: Edge)
    requires
        0 <= r < window.len(),
    ensures
        eligible(window.take(r + 1), i, j).contains(e) <==> eligible(
            window.take(r),
            i,
            j,
        ).contains(e) || (e == (window[r].1, window[r].2) && e.0 != i && e.1 != j),
{
    lemma_row_push(window, r, e);
}

/// Does one edge of the list share a vertex with `e`?
pub open spec fn is_blocked(taken: Seq<Edge>, e: Edge) -> bool {
    exists|t: int| 0 <= t < taken.len() && ((#[trigger] taken[t]).0 == e.0 || taken[t].1 == e.1)
}

/// Is every vertex of one side on the list?
spec fn lists_all(g: Set<Edge>, left: bool, list: Seq<u32>) -> bool {
    forall|e: Edge| #[trigger] g.contains(e) ==> list.contains(end_of(e, left))
}

/// Does one edge of the list share a sample with the two given?
fn clashes(taken: &Vec<Edge>, wi: u32, wj: u32) -> (yes: bool)
    ensures
        yes <==> is_blocked(taken@, (wi, wj)),
{
    for t in 0..taken.len()
        invariant
            forall|u: int|
                0 <= u < t ==> (#[trigger] taken@[u]).0 != wi && taken@[u].1 != wj,
    {
        if taken[t].0 == wi || taken[t].1 == wj {
            return true;
        }
    }
    false
}

/// Is `wi` one of the samples listed?
fn lists(list: &Vec<u32>, wi: u32) -> (yes: bool)
    ensures
        yes <==> list@.contains(wi),
{
    for t in 0..list.len()
        invariant
            forall|u: int| 0 <= u < t ==> #[trigger] list@[u] != wi,
    {
        if list[t] == wi {
            return true;
        }
    }
    false
}

impl Witnesses {
    /// Every slot points to its vertex and back.
    pub closed spec fn is_valid(&self) -> bool {
        &&& slots_agree(self.slot_a@, self.side_a@)
        &&& slots_agree(self.slot_b@, self.side_b@)
    }

    /// How many samples each video of the pair in hand has.
    pub closed spec fn samples(&self) -> (nat, nat) {
        (self.samples_a as nat, self.samples_b as nat)
    }

    pub fn new() -> (w: Witnesses)
        ensures
            w.is_valid(),
            w.samples() == (0nat, 0nat),
    {
        Witnesses {
            samples_a: 0,
            samples_b: 0,
            taken: Vec::new(),
            slot_a: Vec::new(),
            slot_b: Vec::new(),
            side_a: Vec::new(),
            side_b: Vec::new(),
            edges: Vec::new(),
            seen: Vec::new(),
        }
    }

    /// Take up a new pair.
    pub fn begin(&mut self, samples_a: usize, samples_b: usize)
        requires
            old(self).is_valid(),
        ensures
            final(self).is_valid(),
            final(self).samples() == (samples_a as nat, samples_b as nat),
    {
        self.samples_a = samples_a;
        self.samples_b = samples_b;
    }

    /// Whether the largest matching in `window`, excluding the candidate's own
    /// sample on each side, reaches `needed`.
    ///
    /// Three questions settle most windows before a matching is searched for. A
    /// window with no more rows than the quota cannot meet it, since the
    /// candidate's own row is one of them. A greedy pairing that meets the quota
    /// is a matching. One that falls below half of it is at least half as large as
    /// any.
    pub fn enough(&mut self, window: &[Aligned], i: u32, j: u32, needed: usize) -> (met: bool)
        requires
            old(self).is_valid(),
            needed <= MAX_WITNESSES,
            is_row(window@, (i, j)),
            rows_differ(window@),
            rows_fit(window@, old(self).samples().0, old(self).samples().1),
        ensures
            final(self).is_valid(),
            final(self).samples() == old(self).samples(),
            met <==> has_matching(eligible(window@, i, j), needed as nat),
    {
        let ghost g = eligible(window@, i, j);
        if needed == 0 {
            proof {
                lemma_empty(g);
            }
            return true;
        }
        if window.len() <= needed {
            proof {
                if has_matching(g, needed as nat) {
                    let m = choose|m: Seq<Edge>| #[trigger] is_matching(g, m) && m.len() == needed;
                    lemma_window_bound(window@, i, j, m);
                }
            }
            return false;
        }
        self.taken.clear();
        let mut r: usize = 0;
        while r < window.len()
            invariant
                g == eligible(window@, i, j),
                r <= window@.len(),
                self.samples() == old(self).samples(),
                self.is_valid(),
                self.taken@.len() < needed,
                is_matching(g, self.taken@),
                forall|e: Edge| #[trigger]
                    eligible(window@.take(r as int), i, j).contains(e) ==> is_blocked(
                        self.taken@,
                        e,
                    ),
            decreases window@.len() - r,
        {
            let (_, wi, wj, _) = window[r];
            let ghost before = self.taken@;
            if wi != i && wj != j {
                if !clashes(&self.taken, wi, wj) {
                    self.taken.push((wi, wj));
                    proof {
                        assert(window@[r as int].1 == wi);
                        assert(is_row(window@, (wi, wj)));
                        assert(g.contains((wi, wj)));
                        let now = self.taken@;
                        assert forall|k: int| 0 <= k < now.len() implies g.contains(
                            #[trigger] now[k],
                        ) by {
                            if k < before.len() {
                                assert(now[k] == before[k]);
                            }
                        }
                        assert forall|k: int, l: int|
                            0 <= k < now.len() && 0 <= l < now.len() && k != l implies (
                        #[trigger] now[k]).0 != (#[trigger] now[l]).0 && now[k].1 != now[l].1 by {
                            if k < before.len() {
                                assert(now[k] == before[k]);
                            }
                            if l < before.len() {
                                assert(now[l] == before[l]);
                            }
                        }
                        assert(is_matching(g, now));
                        assert(now[before.len() as int] == (wi, wj));
                    }
                    if self.taken.len() >= needed {
                        proof {
                            lemma_shorter(g, self.taken@, needed as nat);
                        }
                        return true;
                    }
                }
            }
            proof {
                let now = self.taken@;
                assert forall|e: Edge| #[trigger]
                    eligible(window@.take(r + 1), i, j).contains(e) implies is_blocked(now, e) by {
                    lemma_eligible_push(window@, r as int, i, j, e);
                    if eligible(window@.take(r as int), i, j).contains(e) {
                        assert(is_blocked(before, e));
                        let t = choose|t: int|
                            0 <= t < before.len() && ((#[trigger] before[t]).0 == e.0
                                || before[t].1 == e.1);
                        assert(now[t] == before[t]);
                    } else if now.len() > before.len() {
                        assert(now[before.len() as int].0 == e.0);
                    }
                }
            }
            r = r + 1;
        }
        proof {
            assert(window@.take(window@.len() as int) =~= window@);
            assert forall|e: Edge| #[trigger] g.contains(e) implies exists|t: int|
                0 <= t < self.taken@.len() && ((#[trigger] self.taken@[t]).0 == e.0
                    || self.taken@[t].1 == e.1) by {
                assert(is_blocked(self.taken@, e));
            }
        }
        if self.taken.len() * 2 < needed {
            proof {
                if has_matching(g, needed as nat) {
                    let m = choose|m: Seq<Edge>| #[trigger] is_matching(g, m) && m.len() == needed;
                    lemma_half(g, self.taken@, m);
                }
            }
            return false;
        }
        self.exact(window, i, j, needed)
    }

    /// The largest matching in the window, decided rather than approximated.
    ///
    /// A vertex takes no more than `needed` edges: the edges it turns away could
    /// always be stood in for by one it kept. With no vertex above that, more than
    /// `needed * (needed - 1)` edges hold a matching of `needed` whatever they look
    /// like. Otherwise the pairing is grown one augmenting path at a time, for as
    /// long as what is left to try could still reach the quota.
    #[verifier::rlimit(60)]
    #[verifier::spinoff_prover]
    fn exact(&mut self, window: &[Aligned], i: u32, j: u32, needed: usize) -> (met: bool)
        requires
            old(self).is_valid(),
            0 < needed <= MAX_WITNESSES,
            rows_differ(window@),
            rows_fit(window@, old(self).samples().0, old(self).samples().1),
        ensures
            final(self).is_valid(),
            final(self).samples() == old(self).samples(),
            met <==> has_matching(eligible(window@, i, j), needed as nat),
    {
        let ghost g = eligible(window@, i, j);
        if !self.side_is_wide_enough(window, i, j, needed) {
            return false;
        }
        clear(&mut self.slot_a, &mut self.side_a, self.samples_a);
        clear(&mut self.slot_b, &mut self.side_b, self.samples_b);
        self.edges.clear();
        assert(needed * (needed - 1) + 1 <= 4033) by (nonlinear_arith)
            requires
                0 < needed <= 64,
        ;
        let conclusive: usize = needed * (needed - 1) + 1;
        let mut paired: usize = 0;
        let ghost mut kept: Seq<Edge> = Seq::empty();
        proof {
            assert forall|v: End| #[trigger] degree(kept, v) == 0 by {
                lemma_degree_empty(v);
            }
            assert(pairs(mates(self.side_a@), 0) =~= Seq::empty());
        }
        for r in 0..window.len()
            invariant
                g == eligible(window@, i, j),
                0 < needed <= MAX_WITNESSES,
                conclusive == needed * (needed - 1) + 1,
                conclusive <= 4033,
                rows_differ(window@),
                rows_fit(window@, old(self).samples().0, old(self).samples().1),
                self.samples() == old(self).samples(),
                self.slot_a@.len() >= self.samples_a,
                self.slot_b@.len() >= self.samples_b,
                slots_agree(self.slot_a@, self.side_a@),
                slots_agree(self.slot_b@, self.side_b@),
                is_built(kept, self.edges@, self.side_a@, self.side_b@, needed as nat),
                bare_samples(kept, self.slot_a@, true),
                bare_samples(kept, self.slot_b@, false),
                all_from(kept, eligible(window@.take(r as int), i, j)),
                all_kept(eligible(window@.take(r as int), i, j), kept, needed as nat),
                mates_agree(self.edges@.to_set(), mates(self.side_a@), mates(self.side_b@)),
                paired == pairs(mates(self.side_a@), 0).len(),
                paired < needed,
                self.edges@.len() < conclusive,
        {
            let (_, wi, wj, _) = window[r];
            let ghost e = (wi, wj);
            let ghost kept0 = kept;
            assert(window@[r as int].1 < self.slot_a@.len() && window@[r as int].2
                < self.slot_b@.len());
            if wi != i && wj != j {
                let capped_a = at_degree_cap(self.slot_a[wi as usize], &self.side_a, needed);
                let capped_b = at_degree_cap(self.slot_b[wj as usize], &self.side_b, needed);
                if !capped_a && !capped_b {
                    let ghost ma0 = mates(self.side_a@);
                    let ghost mb0 = mates(self.side_b@);
                    let ghost h0 = self.edges@.to_set();
                    let a = vertex_for(&mut self.slot_a, &mut self.side_a, wi);
                    let b = vertex_for(&mut self.slot_b, &mut self.side_b, wj);
                    let ghost side_a1 = self.side_a@;
                    let ghost side_b1 = self.side_b@;
                    proof {
                        assert(!kept.contains(e)) by {
                            if kept.contains(e) {
                                lemma_row_is_new(window@, r as int, i, j);
                            }
                        }
                        assert(mates(side_a1) =~= ma0 || mates(side_a1) =~= ma0.push(NO_VERTEX));
                        assert(mates(side_b1) =~= mb0 || mates(side_b1) =~= mb0.push(NO_VERTEX));
                        lemma_new_vertex(h0, ma0, mb0, mates(side_a1), mates(side_b1));
                    }
                    let va = self.side_a[a as usize];
                    let vb = self.side_b[b as usize];
                    self.side_a.set(
                        a as usize,
                        Vertex { sample: va.sample, degree: va.degree + 1, mate: va.mate },
                    );
                    self.side_b.set(
                        b as usize,
                        Vertex { sample: vb.sample, degree: vb.degree + 1, mate: vb.mate },
                    );
                    let ghost edges0 = self.edges@;
                    self.edges.push((a, b));
                    proof {
                        kept = kept.push(e);
                        assert(mates(self.side_a@) =~= mates(side_a1));
                        assert(mates(self.side_b@) =~= mates(side_b1));
                        edges0.lemma_push_to_set_commute((a, b));
                        lemma_more_edges(h0, (a, b), mates(side_a1), mates(side_b1));
                        lemma_built_push(
                            kept0,
                            e,
                            edges0,
                            (a, b),
                            side_a1,
                            side_b1,
                            self.side_a@,
                            self.side_b@,
                            needed as nat,
                        );
                        lemma_bare_push(kept0, e, self.slot_a@, true);
                        lemma_bare_push(kept0, e, self.slot_b@, false);
                    }
                    if va.mate == NO_VERTEX && vb.mate == NO_VERTEX {
                        let ghost sa = self.side_a@;
                        let ghost sb = self.side_b@;
                        self.side_a.set(
                            a as usize,
                            Vertex { sample: va.sample, degree: va.degree + 1, mate: b },
                        );
                        self.side_b.set(
                            b as usize,
                            Vertex { sample: vb.sample, degree: vb.degree + 1, mate: a },
                        );
                        proof {
                            assert(mates(self.side_a@) =~= mates(sa).update(a as int, b));
                            assert(mates(self.side_b@) =~= mates(sb).update(b as int, a));
                            assert(self.edges@.to_set().contains((a, b)));
                            lemma_new_pair(self.edges@.to_set(), mates(sa), mates(sb), a, b);
                        }
                        paired = paired + 1;
                        if paired >= needed {
                            proof {
                                lemma_pairs_match(
                                    self.edges@.to_set(),
                                    mates(self.side_a@),
                                    mates(self.side_b@),
                                );
                                lemma_from_ids(
                                    kept,
                                    self.edges@,
                                    self.side_a@,
                                    self.side_b@,
                                    needed as nat,
                                    self.slot_a@,
                                    self.slot_b@,
                                    pairs(mates(self.side_a@), 0),
                                );
                                lemma_kept_in_window(window@, r as int, i, j, kept0, e);
                                lemma_shorter_any(kept.to_set(), paired as nat, needed as nat);
                                lemma_wider(kept.to_set(), g, needed as nat);
                            }
                            return true;
                        }
                    }
                    if self.edges.len() >= conclusive {
                        proof {
                            lemma_many_edges(kept, needed as nat);
                            lemma_kept_in_window(window@, r as int, i, j, kept0, e);
                            lemma_wider(kept.to_set(), g, needed as nat);
                        }
                        return true;
                    }
                }
            }
            proof {
                lemma_next_row(window@, r as int, i, j, kept0, kept, needed as nat);
            }
        }
        let ghost h = self.edges@.to_set();
        proof {
            assert(window@.take(window@.len() as int) =~= window@);
        }
        if self.side_a.len() < needed || self.side_b.len() < needed {
            proof {
                if has_matching(g, needed as nat) {
                    lemma_capped(g, kept, needed as nat);
                    let m = choose|m: Seq<Edge>| #[trigger] is_matching(kept.to_set(), m) && m.len() == needed;
                    let list_a = self.side_a@.map_values(|v: Vertex| v.sample);
                    let list_b = self.side_b@.map_values(|v: Vertex| v.sample);
                    assert forall|f: Edge| #[trigger] kept.to_set().contains(f) implies list_a.contains(
                        end_of(f, true),
                    ) && list_b.contains(end_of(f, false)) by {
                        let k = choose|k: int| 0 <= k < kept.len() && kept[k] == f;
                        assert(kept.contains(f));
                        assert(list_a[self.edges@[k].0 as int] == f.0);
                        assert(list_b[self.edges@[k].1 as int] == f.1);
                    }
                    lemma_width(kept.to_set(), list_a, true, m);
                    lemma_width(kept.to_set(), list_b, false, m);
                }
            }
            return false;
        }
        let width = self.side_b.len();
        self.seen.clear();
        for k in 0..width
            invariant
                self.seen@.len() == k,
                self.samples() == old(self).samples(),
                self.side_b@.len() == width,
                slots_agree(self.slot_a@, self.side_a@),
                slots_agree(self.slot_b@, self.side_b@),
                is_built(kept, self.edges@, self.side_a@, self.side_b@, needed as nat),
                mates_agree(h, mates(self.side_a@), mates(self.side_b@)),
                h == self.edges@.to_set(),
                paired == pairs(mates(self.side_a@), 0).len(),
                paired < needed,
        {
            self.seen.push(false);
        }
        let count = self.side_a.len();
        proof {
            lemma_pairs(mates(self.side_a@), 0);
        }
        let mut untried: usize = count - paired;
        let ghost mut shut: Set<u32> = Set::empty();
        for a in 0..count
            invariant
                g == eligible(window@, i, j),
                0 < needed <= MAX_WITNESSES,
                self.samples() == old(self).samples(),
                self.side_a@.len() == count,
                self.side_b@.len() == width,
                self.seen@.len() == width,
                slots_agree(self.slot_a@, self.side_a@),
                slots_agree(self.slot_b@, self.side_b@),
                is_built(kept, self.edges@, self.side_a@, self.side_b@, needed as nat),
                h == self.edges@.to_set(),
                all_from(kept, g),
                all_kept(g, kept, needed as nat),
                count <= 4033,
                untried <= count,
                mates_agree(h, mates(self.side_a@), mates(self.side_b@)),
                paired == pairs(mates(self.side_a@), 0).len(),
                paired < needed,
                untried == singles(mates(self.side_a@), a as int).len(),
                is_closed(h, mates(self.side_b@), shut),
                forall|x: int|
                    0 <= x < a && #[trigger] mates(self.side_a@)[x] == NO_VERTEX ==> leads_into(
                        h,
                        x as u32,
                        shut,
                    ),
        {
            if paired + untried < needed {
                proof {
                    if has_matching(g, needed as nat) {
                        lemma_bounded_by(
                            g,
                            kept,
                            self.edges@,
                            self.side_a@,
                            self.side_b@,
                            needed as nat,
                            shut,
                            a as int,
                        );
                    }
                }
                return false;
            }
            let ghost ma = mates(self.side_a@);
            let ghost mb = mates(self.side_b@);
            if self.side_a[a].mate == NO_VERTEX {
                untried = untried - 1;
                for k in 0..width
                    invariant
                        self.seen@.len() == width,
                        self.samples() == old(self).samples(),
                        self.side_a@.len() == count,
                        self.side_b@.len() == width,
                        slots_agree(self.slot_a@, self.side_a@),
                        slots_agree(self.slot_b@, self.side_b@),
                        is_built(kept, self.edges@, self.side_a@, self.side_b@, needed as nat),
                        h == self.edges@.to_set(),
                        ma == mates(self.side_a@),
                        mb == mates(self.side_b@),
                        forall|l: int| 0 <= l < k ==> !#[trigger] self.seen@[l],
                {
                    self.seen.set(k, false);
                }
                proof {
                    lemma_ids_fit(kept, self.edges@, self.side_a@, self.side_b@, needed as nat);
                }
                let ghost sa = self.side_a@;
                let ghost sb = self.side_b@;
                let ghost down = self.seen@;
                let grown = augment(
                    a as u32,
                    &self.edges,
                    &mut self.side_a,
                    &mut self.side_b,
                    &mut self.seen,
                );
                proof {
                    lemma_same_built(kept, self.edges@, sa, sb, self.side_a@, self.side_b@, needed as nat);
                    lemma_same_slots(self.slot_a@, sa, self.side_a@);
                    lemma_same_slots(self.slot_b@, sb, self.side_b@);
                }
                if grown {
                    proof {
                        let na = mates(self.side_a@);
                        let nb = mates(self.side_b@);
                        assert(ma[a as int] == NO_VERTEX);
                        assert(mates_agree(h, na, nb)) by {
                            assert forall|y: int|
                                0 <= y < nb.len() && #[trigger] nb[y] != NO_VERTEX implies nb[y]
                                < na.len() && na[nb[y] as int] == y by {}
                        }
                        lemma_one_more(ma, na, a as int, 0);
                        assert forall|x: int| a + 1 <= x < ma.len() implies (#[trigger] na[x]
                            == NO_VERTEX <==> ma[x] == NO_VERTEX) by {}
                        lemma_same_counts(ma, na, a + 1);
                        assert(is_closed(h, nb, shut)) by {
                            assert(is_closed(h, mb, shut));
                            assert forall|y: u32| #[trigger] shut.contains(y) implies y < nb.len()
                                && nb[y as int] != NO_VERTEX && leads_into(
                                h,
                                nb[y as int],
                                shut,
                            ) by {
                                assert(nb[y as int] == mb[y as int]);
                            }
                        }
                        assert forall|x: int|
                            0 <= x < a + 1 && #[trigger] na[x] == NO_VERTEX implies leads_into(
                            h,
                            x as u32,
                            shut,
                        ) by {
                            assert(x != a);
                            assert(ma[x] == NO_VERTEX);
                        }
                    }
                    paired = paired + 1;
                    if paired >= needed {
                        proof {
                            lemma_pairs_match(h, mates(self.side_a@), mates(self.side_b@));
                            lemma_from_ids(
                                kept,
                                self.edges@,
                                self.side_a@,
                                self.side_b@,
                                needed as nat,
                                self.slot_a@,
                                self.slot_b@,
                                pairs(mates(self.side_a@), 0),
                            );
                            lemma_shorter_any(kept.to_set(), paired as nat, needed as nat);
                            assert forall|f: Edge| #[trigger] kept.to_set().contains(f) implies g.contains(f) by {
                                assert(kept.contains(f));
                            }
                            lemma_wider(kept.to_set(), g, needed as nat);
                        }
                        return true;
                    }
                } else {
                    proof {
                        let more = flagged(self.seen@);
                        let all = shut.union(more);
                        assert forall|y: u32| #[trigger] all.contains(y) implies y < mb.len()
                            && mb[y as int] != NO_VERTEX && leads_into(h, mb[y as int], all) by {
                            if shut.contains(y) {
                                assert(leads_into(h, mb[y as int], shut));
                            } else {
                                assert(more.contains(y));
                                assert(self.seen@[y as int] && !down[y as int]);
                                assert(leads_into(h, mb[y as int], more));
                            }
                        }
                        assert forall|x: int|
                            0 <= x < a + 1 && #[trigger] mates(self.side_a@)[x]
                                == NO_VERTEX implies leads_into(h, x as u32, all) by {
                            if x < a {
                                assert(ma[x] == NO_VERTEX);
                                assert(leads_into(h, x as u32, shut));
                            } else {
                                assert(leads_into(h, x as u32, more));
                            }
                        }
                        shut = all;
                    }
                }
            }
        }
        proof {
            if has_matching(g, needed as nat) {
                lemma_bounded_by(
                    g,
                    kept,
                    self.edges@,
                    self.side_a@,
                    self.side_b@,
                    needed as nat,
                    shut,
                    count as int,
                );
            }
        }
        false
    }


    /// Whether the window has `needed` distinct samples on each side, which a
    /// matching cannot outrun.
    fn side_is_wide_enough(&self, window: &[Aligned], i: u32, j: u32, needed: usize) -> (wide: bool)
        requires
            needed <= MAX_WITNESSES,
            rows_fit(window@, self.samples().0, self.samples().1),
        ensures
            has_matching(eligible(window@, i, j), needed as nat) ==> wide,
            wide <==> is_wide(eligible(window@, i, j), needed as nat),
    {
        let ghost g = eligible(window@, i, j);
        if self.samples_a > 64 || self.samples_b > 64 {
            return Self::wide_sides_are_wide_enough(window, i, j, needed);
        }
        let mut seen_a: u64 = 0;
        let mut seen_b: u64 = 0;
        let ghost mut list_a: Seq<u32> = Seq::empty();
        let ghost mut list_b: Seq<u32> = Seq::empty();
        proof {
            assert forall|v: u64| v < 64 implies !#[trigger] has_bit(0u64, v) by {
                assert((0u64 >> v) & 1 == 0) by (bit_vector);
            }
        }
        for r in 0..window.len()
            invariant
                rows_fit(window@, self.samples().0, self.samples().1),
                self.samples_a <= 64,
                self.samples_b <= 64,
                list_a.no_duplicates(),
                list_b.no_duplicates(),
                ones(seen_a) == list_a.len(),
                ones(seen_b) == list_b.len(),
                forall|v: u64| v < 64 ==> (#[trigger] has_bit(seen_a, v) <==> list_a.contains(v as u32)),
                forall|v: u64| v < 64 ==> (#[trigger] has_bit(seen_b, v) <==> list_b.contains(v as u32)),
                forall|s: u32| #[trigger]
                    list_a.contains(s) <==> is_end(eligible(window@.take(r as int), i, j), true, s),
                forall|s: u32| #[trigger]
                    list_b.contains(s) <==> is_end(eligible(window@.take(r as int), i, j), false, s),
        {
            let (_, wi, wj, _) = window[r];
            assert(window@[r as int].1 < 64 && window@[r as int].2 < 64);
            let ghost a0 = list_a;
            let ghost b0 = list_b;
            if wi != i && wj != j {
                proof {
                    lemma_set_bit(seen_a, wi as u64);
                    lemma_set_bit(seen_b, wj as u64);
                    if !a0.contains(wi) {
                        list_a = a0.push(wi);
                        lemma_push_contains(a0, wi);
                    }
                    if !b0.contains(wj) {
                        list_b = b0.push(wj);
                        lemma_push_contains(b0, wj);
                    }
                }
                seen_a = seen_a | (1u64 << (wi as u64));
                seen_b = seen_b | (1u64 << (wj as u64));
            }
            proof {
                assert forall|s: u32| #[trigger] list_a.contains(s) <==> is_end(
                    eligible(window@.take(r + 1), i, j),
                    true,
                    s,
                ) by {
                    lemma_end_push(window@, r as int, i, j, true, s);
                    assert(a0.contains(s) <==> is_end(
                        eligible(window@.take(r as int), i, j),
                        true,
                        s,
                    ));
                }
                assert forall|s: u32| #[trigger] list_b.contains(s) <==> is_end(
                    eligible(window@.take(r + 1), i, j),
                    false,
                    s,
                ) by {
                    lemma_end_push(window@, r as int, i, j, false, s);
                    assert(b0.contains(s) <==> is_end(
                        eligible(window@.take(r as int), i, j),
                        false,
                        s,
                    ));
                }
            }
        }
        proof {
            assert(window@.take(window@.len() as int) =~= window@);
            lemma_is_wide(g, list_a, list_b, needed as nat);
        }
        seen_a.count_ones() as usize >= needed && seen_b.count_ones() as usize >= needed
    }

    /// The same question for a file with more samples than a word has bits. Neither
    /// list is filled past the quota, and the walk stops once both have reached it.
    pub fn wide_sides_are_wide_enough(window: &[Aligned], i: u32, j: u32, needed: usize) -> (wide: bool)
        requires
            needed <= MAX_WITNESSES,
        ensures
            has_matching(eligible(window@, i, j), needed as nat) ==> wide,
            wide <==> is_wide(eligible(window@, i, j), needed as nat),
    {
        let ghost g = eligible(window@, i, j);
        let mut seen_a: Vec<u32> = Vec::new();
        let mut seen_b: Vec<u32> = Vec::new();
        for r in 0..window.len()
            invariant
                g == eligible(window@, i, j),
                seen_a@.no_duplicates(),
                seen_b@.no_duplicates(),
                seen_a@.len() <= needed,
                seen_b@.len() <= needed,
                forall|s: u32| #[trigger] seen_a@.contains(s) ==> is_end(g, true, s),
                forall|s: u32| #[trigger] seen_b@.contains(s) ==> is_end(g, false, s),
                seen_a@.len() < needed ==> lists_all(
                    eligible(window@.take(r as int), i, j),
                    true,
                    seen_a@,
                ),
                seen_b@.len() < needed ==> lists_all(
                    eligible(window@.take(r as int), i, j),
                    false,
                    seen_b@,
                ),
        {
            let (_, wi, wj, _) = window[r];
            let ghost a0 = seen_a@;
            let ghost b0 = seen_b@;
            proof {
                assert(window@[r as int].1 == wi);
                assert(is_row(window@, (wi, wj)));
                lemma_push_contains(a0, wi);
                lemma_push_contains(b0, wj);
            }
            if wi != i && wj != j {
                assert(g.contains((wi, wj)));
                assert(end_of((wi, wj), true) == wi && end_of((wi, wj), false) == wj);
                assert(is_end(g, true, wi) && is_end(g, false, wj));
                if seen_a.len() < needed && !lists(&seen_a, wi) {
                    seen_a.push(wi);
                }
                if seen_b.len() < needed && !lists(&seen_b, wj) {
                    seen_b.push(wj);
                }
                if seen_a.len() >= needed && seen_b.len() >= needed {
                    proof {
                        lemma_wide_enough(g, seen_a@, seen_b@, needed as nat);
                    }
                    return true;
                }
            }
            proof {
                if seen_a@.len() < needed {
                    assert forall|e: Edge| #[trigger]
                        eligible(window@.take(r + 1), i, j).contains(e) implies seen_a@.contains(
                        end_of(e, true),
                    ) by {
                        lemma_eligible_push(window@, r as int, i, j, e);
                        if eligible(window@.take(r as int), i, j).contains(e) {
                            assert(a0.contains(end_of(e, true)));
                        }
                    }
                }
                if seen_b@.len() < needed {
                    assert forall|e: Edge| #[trigger]
                        eligible(window@.take(r + 1), i, j).contains(e) implies seen_b@.contains(
                        end_of(e, false),
                    ) by {
                        lemma_eligible_push(window@, r as int, i, j, e);
                        if eligible(window@.take(r as int), i, j).contains(e) {
                            assert(b0.contains(end_of(e, false)));
                        }
                    }
                }
            }
        }
        proof {
            assert(window@.take(window@.len() as int) =~= window@);
            if seen_a@.len() < needed {
                lemma_too_narrow(g, seen_a@, true, needed as nat);
            } else if seen_b@.len() < needed {
                lemma_too_narrow(g, seen_b@, false, needed as nat);
            } else {
                lemma_wide_enough(g, seen_a@, seen_b@, needed as nat);
            }
        }
        seen_a.len() >= needed && seen_b.len() >= needed
    }
}

/// Was the edge kept, or turned away at a vertex with as many as it may have?
spec fn is_kept(kept: Seq<Edge>, e: Edge, d: nat) -> bool {
    kept.contains(e) || degree(kept, End::A(e.0)) >= d || degree(kept, End::B(e.1)) >= d
}

/// Was every edge of the graph kept, or turned away?
spec fn all_kept(g: Set<Edge>, kept: Seq<Edge>, d: nat) -> bool {
    forall|e: Edge| #[trigger] g.contains(e) ==> is_kept(kept, e, d)
}

/// Does every edge kept belong to the graph?
spec fn all_from(kept: Seq<Edge>, g: Set<Edge>) -> bool {
    forall|e: Edge| #[trigger] kept.contains(e) ==> g.contains(e)
}

/// The edges kept, as pairs of samples and as pairs of vertices.
spec fn is_built(
    kept: Seq<Edge>,
    edges: Seq<Edge>,
    side_a: Seq<Vertex>,
    side_b: Seq<Vertex>,
    d: nat,
) -> bool {
    &&& kept.no_duplicates()
    &&& kept.len() == edges.len()
    &&& side_a.len() <= kept.len()
    &&& side_b.len() <= kept.len()
    &&& forall|v: End| #[trigger] degree(kept, v) <= d
    &&& forall|k: int|
        0 <= k < edges.len() ==> {
            &&& (#[trigger] edges[k]).0 < side_a.len()
            &&& edges[k].1 < side_b.len()
            &&& side_a[edges[k].0 as int].sample == kept[k].0
            &&& side_b[edges[k].1 as int].sample == kept[k].1
        }
    &&& forall|x: int|
        0 <= x < side_a.len() ==> (#[trigger] side_a[x]).degree == degree(
            kept,
            End::A(side_a[x].sample),
        )
    &&& forall|y: int|
        0 <= y < side_b.len() ==> (#[trigger] side_b[y]).degree == degree(
            kept,
            End::B(side_b[y].sample),
        )
}

/// The vertex of a sample on one side.
spec fn end_at(s: u32, left: bool) -> End {
    if left {
        End::A(s)
    } else {
        End::B(s)
    }
}

/// A sample without a vertex has no edge.
spec fn bare_samples(kept: Seq<Edge>, slots: Seq<u32>, left: bool) -> bool {
    forall|s: u32|
        s < slots.len() && #[trigger] slots[s as int] == NO_VERTEX ==> degree(
            kept,
            end_at(s, left),
        ) == 0
}

proof fn lemma_degree_empty(v: End)
    ensures
        degree(Seq::<Edge>::empty(), v) == 0,
{
    reveal(Seq::filter);
}

proof fn lemma_edge_push(kept: Seq<Edge>, e: Edge, f: Edge)
    ensures
        kept.push(e).contains(f) <==> kept.contains(f) || f == e,
{
    let more = kept.push(e);
    if kept.contains(f) {
        let k = choose|k: int| 0 <= k < kept.len() && kept[k] == f;
        assert(more[k] == f);
    }
    assert(more[kept.len() as int] == e);
}

/// A row's own pair stands in no earlier row.
proof fn lemma_row_is_new(window: Seq<Aligned>, r: int, i: u32, j: u32)
    requires
        rows_differ(window),
        0 <= r < window.len(),
    ensures
        !eligible(window.take(r), i, j).contains((window[r].1, window[r].2)),
{
    let e = (window[r].1, window[r].2);
    let less = window.take(r);
    if is_row(less, e) {
        let q = choose|q: int|
            0 <= q < less.len() && (#[trigger] less[q]).1 == e.0 && less[q].2 == e.1;
        assert(window[q] == less[q]);
        assert(window[q].1 != window[r].1 || window[q].2 != window[r].2);
    }
}

/// What holds of the edges kept, one row further on.
proof fn lemma_next_row(
    window: Seq<Aligned>,
    r: int,
    i: u32,
    j: u32,
    kept0: Seq<Edge>,
    kept: Seq<Edge>,
    d: nat,
)
    requires
        0 <= r < window.len(),
        all_from(kept0, eligible(window.take(r), i, j)),
        all_kept(eligible(window.take(r), i, j), kept0, d),
        ({
            let e = (window[r].1, window[r].2);
            ||| kept == kept0.push(e) && e.0 != i && e.1 != j
            ||| kept == kept0 && (e.0 == i || e.1 == j || is_kept(kept0, e, d))
        }),
    ensures
        all_from(kept, eligible(window.take(r + 1), i, j)),
        all_kept(eligible(window.take(r + 1), i, j), kept, d),
{
    let e = (window[r].1, window[r].2);
    assert forall|f: Edge| #[trigger] kept.contains(f) implies eligible(
        window.take(r + 1),
        i,
        j,
    ).contains(f) by {
        lemma_eligible_push(window, r, i, j, f);
        lemma_edge_push(kept0, e, f);
    }
    assert forall|f: Edge| #[trigger] eligible(window.take(r + 1), i, j).contains(f) implies is_kept(
        kept,
        f,
        d,
    ) by {
        lemma_eligible_push(window, r, i, j, f);
        lemma_edge_push(kept0, e, f);
        lemma_degree_push(kept0, e, End::A(f.0));
        lemma_degree_push(kept0, e, End::B(f.1));
        if eligible(window.take(r), i, j).contains(f) {
            assert(is_kept(kept0, f, d));
        }
    }
}

/// The edges kept so far are all eligible in the whole window.
proof fn lemma_kept_in_window(
    window: Seq<Aligned>,
    r: int,
    i: u32,
    j: u32,
    kept0: Seq<Edge>,
    e: Edge,
)
    requires
        0 <= r < window.len(),
        e == (window[r].1, window[r].2),
        e.0 != i,
        e.1 != j,
        all_from(kept0, eligible(window.take(r), i, j)),
    ensures
        forall|f: Edge| #[trigger]
            kept0.push(e).to_set().contains(f) ==> eligible(window, i, j).contains(f),
{
    assert forall|f: Edge| #[trigger] kept0.push(e).to_set().contains(f) implies eligible(
        window,
        i,
        j,
    ).contains(f) by {
        assert(kept0.push(e).contains(f));
        lemma_edge_push(kept0, e, f);
        if kept0.contains(f) {
            assert(eligible(window.take(r), i, j).contains(f));
            let less = window.take(r);
            let q = choose|q: int|
                0 <= q < less.len() && (#[trigger] less[q]).1 == f.0 && less[q].2 == f.1;
            assert(window[q] == less[q]);
        } else {
            assert(window[r].1 == f.0);
        }
    }
}

proof fn lemma_shorter_any(g: Set<Edge>, n: nat, d: nat)
    requires
        has_matching(g, n),
        d <= n,
    ensures
        has_matching(g, d),
{
    let m = choose|m: Seq<Edge>| #[trigger] is_matching(g, m) && m.len() == n;
    lemma_shorter(g, m, d);
}

/// A vertex with no partner changes nothing about the pairs.
proof fn lemma_pairs_push(ma: Seq<u32>, from: int)
    requires
        0 <= from <= ma.len(),
    ensures
        pairs(ma.push(NO_VERTEX), from) == pairs(ma, from),
    decreases ma.len() - from,
{
    let more = ma.push(NO_VERTEX);
    if from < ma.len() {
        lemma_pairs_push(ma, from + 1);
        assert(more[from] == ma[from]);
    } else {
        assert(more[from] == NO_VERTEX);
        assert(pairs(more, from + 1) =~= Seq::<Edge>::empty());
    }
}

/// New vertices start without partners.
proof fn lemma_new_vertex(h: Set<Edge>, ma: Seq<u32>, mb: Seq<u32>, na: Seq<u32>, nb: Seq<u32>)
    requires
        mates_agree(h, ma, mb),
        na == ma || na == ma.push(NO_VERTEX),
        nb == mb || nb == mb.push(NO_VERTEX),
        na.len() < NO_VERTEX,
        nb.len() < NO_VERTEX,
    ensures
        mates_agree(h, na, nb),
        pairs(na, 0).len() == pairs(ma, 0).len(),
{
    lemma_pairs_push(ma, 0);
    assert forall|x: int| 0 <= x < na.len() && #[trigger] na[x] != NO_VERTEX implies na[x]
        < nb.len() && nb[na[x] as int] == x && h.contains((x as u32, na[x])) by {
        assert(ma[x] == na[x]);
    }
    assert forall|y: int| 0 <= y < nb.len() && #[trigger] nb[y] != NO_VERTEX implies nb[y]
        < na.len() && na[nb[y] as int] == y by {
        assert(mb[y] == nb[y]);
    }
}

proof fn lemma_more_edges(h: Set<Edge>, e: Edge, ma: Seq<u32>, mb: Seq<u32>)
    requires
        mates_agree(h, ma, mb),
    ensures
        mates_agree(h.insert(e), ma, mb),
{
}

/// Pairing two free vertices makes one more pair.
proof fn lemma_new_pair(h: Set<Edge>, ma: Seq<u32>, mb: Seq<u32>, a: u32, b: u32)
    requires
        mates_agree(h, ma, mb),
        a < ma.len(),
        b < mb.len(),
        h.contains((a, b)),
        ma[a as int] == NO_VERTEX,
        mb[b as int] == NO_VERTEX,
    ensures
        mates_agree(h, ma.update(a as int, b), mb.update(b as int, a)),
        pairs(ma.update(a as int, b), 0).len() == pairs(ma, 0).len() + 1,
{
    let na = ma.update(a as int, b);
    let nb = mb.update(b as int, a);
    assert forall|x: int| 0 <= x < na.len() && #[trigger] na[x] != NO_VERTEX implies na[x]
        < nb.len() && nb[na[x] as int] == x && h.contains((x as u32, na[x])) by {
        if x != a {
            assert(ma[x] != NO_VERTEX);
        }
    }
    assert forall|y: int| 0 <= y < nb.len() && #[trigger] nb[y] != NO_VERTEX implies nb[y]
        < na.len() && na[nb[y] as int] == y by {
        if y != b {
            assert(mb[y] != NO_VERTEX);
        }
    }
    lemma_one_more(ma, na, a as int, 0);
}

/// One more edge, counted at both its vertices.
proof fn lemma_built_push(
    kept: Seq<Edge>,
    e: Edge,
    edges: Seq<Edge>,
    id: Edge,
    side_a: Seq<Vertex>,
    side_b: Seq<Vertex>,
    new_a: Seq<Vertex>,
    new_b: Seq<Vertex>,
    d: nat,
)
    requires
        kept.no_duplicates(),
        !kept.contains(e),
        kept.len() == edges.len(),
        side_a.len() <= kept.len() + 1,
        side_b.len() <= kept.len() + 1,
        forall|v: End| #[trigger] degree(kept, v) <= d,
        forall|k: int|
            0 <= k < edges.len() ==> {
                &&& (#[trigger] edges[k]).0 < side_a.len()
                &&& edges[k].1 < side_b.len()
                &&& side_a[edges[k].0 as int].sample == kept[k].0
                &&& side_b[edges[k].1 as int].sample == kept[k].1
            },
        forall|x: int|
            0 <= x < side_a.len() ==> (#[trigger] side_a[x]).degree == degree(
                kept,
                End::A(side_a[x].sample),
            ),
        forall|y: int|
            0 <= y < side_b.len() ==> (#[trigger] side_b[y]).degree == degree(
                kept,
                End::B(side_b[y].sample),
            ),
        id.0 < side_a.len(),
        id.1 < side_b.len(),
        side_a[id.0 as int].sample == e.0,
        side_b[id.1 as int].sample == e.1,
        side_a[id.0 as int].degree < d,
        side_b[id.1 as int].degree < d,
        forall|x: int, y: int|
            0 <= x < side_a.len() && 0 <= y < side_a.len() && x != y ==> (
            #[trigger] side_a[x]).sample != (#[trigger] side_a[y]).sample,
        forall|x: int, y: int|
            0 <= x < side_b.len() && 0 <= y < side_b.len() && x != y ==> (
            #[trigger] side_b[x]).sample != (#[trigger] side_b[y]).sample,
        new_a.len() == side_a.len(),
        new_b.len() == side_b.len(),
        forall|x: int|
            0 <= x < side_a.len() ==> (#[trigger] new_a[x]).sample == side_a[x].sample
                && new_a[x].degree == side_a[x].degree + (if x == id.0 {
                1int
            } else {
                0int
            }),
        forall|y: int|
            0 <= y < side_b.len() ==> (#[trigger] new_b[y]).sample == side_b[y].sample
                && new_b[y].degree == side_b[y].degree + (if y == id.1 {
                1int
            } else {
                0int
            }),
    ensures
        is_built(kept.push(e), edges.push(id), new_a, new_b, d),
{
    let more = kept.push(e);
    let ids = edges.push(id);
    assert(more.no_duplicates()) by {
        assert forall|k: int, l: int| 0 <= k < more.len() && 0 <= l < more.len() && k != l implies more[k]
            != more[l] by {
            if k < kept.len() && l < kept.len() {
                assert(kept[k] != kept[l]);
            } else if k < kept.len() {
                assert(kept.contains(kept[k]));
            } else {
                assert(kept.contains(kept[l]));
            }
        }
    }
    assert forall|v: End| #[trigger] degree(more, v) <= d by {
        lemma_degree_push(kept, e, v);
        assert(degree(kept, v) <= d);
        if touches(v, e) {
            match v {
                End::A(s) => {
                    assert(side_a[id.0 as int].degree == degree(kept, End::A(s)));
                },
                End::B(s) => {
                    assert(side_b[id.1 as int].degree == degree(kept, End::B(s)));
                },
            }
        }
    }
    assert forall|k: int| 0 <= k < ids.len() implies {
        &&& (#[trigger] ids[k]).0 < new_a.len()
        &&& ids[k].1 < new_b.len()
        &&& new_a[ids[k].0 as int].sample == more[k].0
        &&& new_b[ids[k].1 as int].sample == more[k].1
    } by {
        if k < edges.len() {
            assert(ids[k] == edges[k]);
        }
    }
    assert forall|x: int| 0 <= x < new_a.len() implies (#[trigger] new_a[x]).degree == degree(
        more,
        End::A(new_a[x].sample),
    ) by {
        lemma_degree_push(kept, e, End::A(new_a[x].sample));
        assert(side_a[x].degree == degree(kept, End::A(side_a[x].sample)));
        if x != id.0 {
            assert(side_a[x].sample != side_a[id.0 as int].sample);
        }
    }
    assert forall|y: int| 0 <= y < new_b.len() implies (#[trigger] new_b[y]).degree == degree(
        more,
        End::B(new_b[y].sample),
    ) by {
        lemma_degree_push(kept, e, End::B(new_b[y].sample));
        assert(side_b[y].degree == degree(kept, End::B(side_b[y].sample)));
        if y != id.1 {
            assert(side_b[y].sample != side_b[id.1 as int].sample);
        }
    }
}

proof fn lemma_bare_push(kept: Seq<Edge>, e: Edge, slots: Seq<u32>, left: bool)
    requires
        bare_samples(kept, slots, left),
        end_of(e, left) < slots.len(),
        slots[end_of(e, left) as int] != NO_VERTEX,
    ensures
        bare_samples(kept.push(e), slots, left),
{
    assert forall|s: u32|
        s < slots.len() && #[trigger] slots[s as int] == NO_VERTEX implies degree(
        kept.push(e),
        end_at(s, left),
    ) == 0 by {
        lemma_degree_push(kept, e, end_at(s, left));
    }
}

/// Pairs of vertices that match are pairs of samples that match.
proof fn lemma_from_ids(
    kept: Seq<Edge>,
    edges: Seq<Edge>,
    side_a: Seq<Vertex>,
    side_b: Seq<Vertex>,
    d: nat,
    slots_a: Seq<u32>,
    slots_b: Seq<u32>,
    m: Seq<Edge>,
)
    requires
        is_built(kept, edges, side_a, side_b, d),
        slots_agree(slots_a, side_a),
        slots_agree(slots_b, side_b),
        is_matching(edges.to_set(), m),
    ensures
        has_matching(kept.to_set(), m.len()),
{
    let out = m.map_values(
        |e: Edge| (side_a[e.0 as int].sample, side_b[e.1 as int].sample),
    );
    assert forall|k: int| 0 <= k < m.len() implies m[k].0 < side_a.len() && m[k].1 < side_b.len()
        && kept.to_set().contains(#[trigger] out[k]) by {
        assert(edges.to_set().contains(m[k]));
        let l = choose|l: int| 0 <= l < edges.len() && edges[l] == m[k];
        assert(kept[l] == out[k]);
    }
    assert forall|k: int, l: int| 0 <= k < out.len() && 0 <= l < out.len() && k != l implies (
    #[trigger] out[k]).0 != (#[trigger] out[l]).0 && out[k].1 != out[l].1 by {
        assert(m[k].0 != m[l].0 && m[k].1 != m[l].1);
        assert(side_a[m[k].0 as int].sample == out[k].0 && side_a[m[l].0 as int].sample
            == out[l].0);
        assert(side_b[m[k].1 as int].sample == out[k].1 && side_b[m[l].1 as int].sample
            == out[l].1);
    }
    assert(is_matching(kept.to_set(), out));
}

/// Pairs of samples that match are pairs of vertices that match.
proof fn lemma_to_ids(
    kept: Seq<Edge>,
    edges: Seq<Edge>,
    side_a: Seq<Vertex>,
    side_b: Seq<Vertex>,
    d: nat,
    m: Seq<Edge>,
) -> (out: Seq<Edge>)
    requires
        is_built(kept, edges, side_a, side_b, d),
        is_matching(kept.to_set(), m),
    ensures
        is_matching(edges.to_set(), out),
        out.len() == m.len(),
{
    let at = Seq::new(m.len(), |k: int| choose|l: int| 0 <= l < kept.len() && kept[l] == m[k]);
    let out = Seq::new(m.len(), |k: int| edges[at[k]]);
    assert forall|k: int| 0 <= k < m.len() implies 0 <= #[trigger] at[k] < kept.len() && kept[at[k]]
        == m[k] by {
        assert(kept.to_set().contains(m[k]));
    }
    assert forall|k: int| 0 <= k < out.len() implies edges.to_set().contains(
        #[trigger] out[k],
    ) by {
        assert(0 <= at[k] < kept.len());
        assert(edges[at[k]] == out[k]);
        assert(edges.contains(out[k]));
    }
    assert forall|k: int, l: int| 0 <= k < out.len() && 0 <= l < out.len() && k != l implies (
    #[trigger] out[k]).0 != (#[trigger] out[l]).0 && out[k].1 != out[l].1 by {
        assert(0 <= at[k] < kept.len() && 0 <= at[l] < kept.len());
        assert(m[k].0 != m[l].0 && m[k].1 != m[l].1);
        assert(edges[at[k]] == out[k] && edges[at[l]] == out[l]);
    }
    out
}

proof fn lemma_ids_fit(
    kept: Seq<Edge>,
    edges: Seq<Edge>,
    side_a: Seq<Vertex>,
    side_b: Seq<Vertex>,
    d: nat,
)
    requires
        is_built(kept, edges, side_a, side_b, d),
    ensures
        edges_fit(edges.to_set(), side_a.len(), side_b.len()),
{
    assert forall|e: Edge| #[trigger] edges.to_set().contains(e) implies e.0 < side_a.len() && e.1
        < side_b.len() by {
        let k = choose|k: int| 0 <= k < edges.len() && edges[k] == e;
        assert(edges[k] == e);
    }
}

/// A matching in the window cannot outrun the pairs made and the vertices untried.
proof fn lemma_bounded_by(
    g: Set<Edge>,
    kept: Seq<Edge>,
    edges: Seq<Edge>,
    side_a: Seq<Vertex>,
    side_b: Seq<Vertex>,
    d: nat,
    shut: Set<u32>,
    from: int,
)
    requires
        is_built(kept, edges, side_a, side_b, d),
        has_matching(g, d),
        all_kept(g, kept, d),
        mates_agree(edges.to_set(), mates(side_a), mates(side_b)),
        is_closed(edges.to_set(), mates(side_b), shut),
        0 <= from <= side_a.len(),
        forall|x: int|
            0 <= x < from && #[trigger] mates(side_a)[x] == NO_VERTEX ==> leads_into(
                edges.to_set(),
                x as u32,
                shut,
            ),
    ensures
        d <= pairs(mates(side_a), 0).len() + singles(mates(side_a), from).len(),
{
    assert forall|e: Edge| #[trigger] g.contains(e) implies kept.contains(e) || degree(
        kept,
        End::A(e.0),
    ) >= d || degree(kept, End::B(e.1)) >= d by {
        assert(is_kept(kept, e, d));
    }
    lemma_capped(g, kept, d);
    let m = choose|m: Seq<Edge>| #[trigger] is_matching(kept.to_set(), m) && m.len() == d;
    let ids = lemma_to_ids(kept, edges, side_a, side_b, d, m);
    lemma_ids_fit(kept, edges, side_a, side_b, d);
    lemma_nothing_left(edges.to_set(), mates(side_a), mates(side_b), shut, from, ids);
}

proof fn lemma_same_built(
    kept: Seq<Edge>,
    edges: Seq<Edge>,
    side_a: Seq<Vertex>,
    side_b: Seq<Vertex>,
    new_a: Seq<Vertex>,
    new_b: Seq<Vertex>,
    d: nat,
)
    requires
        is_built(kept, edges, side_a, side_b, d),
        same_vertices(side_a, new_a),
        same_vertices(side_b, new_b),
    ensures
        is_built(kept, edges, new_a, new_b, d),
{
    assert forall|x: int| 0 <= x < new_a.len() implies (#[trigger] new_a[x]).degree == degree(
        kept,
        End::A(new_a[x].sample),
    ) by {
        assert(side_a[x].degree == degree(kept, End::A(side_a[x].sample)));
    }
    assert forall|y: int| 0 <= y < new_b.len() implies (#[trigger] new_b[y]).degree == degree(
        kept,
        End::B(new_b[y].sample),
    ) by {
        assert(side_b[y].degree == degree(kept, End::B(side_b[y].sample)));
    }
}

proof fn lemma_same_slots(slots: Seq<u32>, side: Seq<Vertex>, new: Seq<Vertex>)
    requires
        slots_agree(slots, side),
        same_vertices(side, new),
    ensures
        slots_agree(slots, new),
{
    assert forall|x: int| 0 <= x < new.len() implies (#[trigger] new[x]).sample < slots.len()
        && slots[new[x].sample as int] == x by {
        assert(side[x].sample == new[x].sample);
    }
}

/// Whether an already-created vertex has taken all the edges it is allowed. A
/// sample the window has not reached yet has none.
fn at_degree_cap(slot: u32, side: &Vec<Vertex>, needed: usize) -> (full: bool)
    requires
        slot != NO_VERTEX ==> slot < side@.len(),
    ensures
        full <==> slot != NO_VERTEX && side@[slot as int].degree >= needed,
{
    slot != NO_VERTEX && side[slot as usize].degree as usize >= needed
}

/// Forget every vertex, and make room for as many samples as there are.
fn clear(slots: &mut Vec<u32>, side: &mut Vec<Vertex>, samples: usize)
    requires
        slots_agree(old(slots)@, old(side)@),
    ensures
        final(side)@.len() == 0,
        final(slots)@.len() >= samples,
        forall|s: int| 0 <= s < final(slots)@.len() ==> #[trigger] final(slots)@[s] == NO_VERTEX,
        slots_agree(final(slots)@, final(side)@),
{
    for x in 0..side.len()
        invariant
            side@ == old(side)@,
            slots@.len() == old(slots)@.len(),
            side@.len() < NO_VERTEX,
            forall|x: int| 0 <= x < side@.len() ==> (#[trigger] side@[x]).sample < slots@.len(),
            forall|s: int|
                0 <= s < slots@.len() && #[trigger] slots@[s] != NO_VERTEX ==> x <= slots@[s]
                    < side@.len() && side@[slots@[s] as int].sample == s,
    {
        let sample = side[x].sample as usize;
        slots.set(sample, NO_VERTEX);
    }
    side.clear();
    while slots.len() < samples
        invariant
            side@.len() == 0,
            forall|s: int| 0 <= s < slots@.len() ==> #[trigger] slots@[s] == NO_VERTEX,
        decreases samples - slots@.len(),
    {
        slots.push(NO_VERTEX);
    }
}

/// The vertex of a sample, made if it has none yet.
fn vertex_for(slots: &mut Vec<u32>, side: &mut Vec<Vertex>, sample: u32) -> (x: u32)
    requires
        slots_agree(old(slots)@, old(side)@),
        sample < old(slots)@.len(),
        old(side)@.len() + 1 < NO_VERTEX,
    ensures
        slots_agree(final(slots)@, final(side)@),
        final(slots)@.len() == old(slots)@.len(),
        final(slots)@[sample as int] == x,
        x < final(side)@.len(),
        final(side)@[x as int].sample == sample,
        forall|s: int|
            0 <= s < final(slots)@.len() && s != sample ==> #[trigger] final(slots)@[s] == old(
                slots,
            )@[s],
        old(slots)@[sample as int] != NO_VERTEX ==> final(side)@ == old(side)@ && x == old(
            slots,
        )@[sample as int],
        old(slots)@[sample as int] == NO_VERTEX ==> final(side)@ == old(side)@.push(
            (Vertex { sample, degree: 0, mate: NO_VERTEX }),
        ) && x == old(side)@.len(),
{
    let held = slots[sample as usize];
    if held == NO_VERTEX {
        let x = side.len() as u32;
        slots.set(sample as usize, x);
        side.push(Vertex { sample, degree: 0, mate: NO_VERTEX });
        x
    } else {
        held
    }
}

/// The end of an edge on one side.
pub open spec fn end_of(e: Edge, left: bool) -> u32 {
    if left {
        e.0
    } else {
        e.1
    }
}

/// Is `s` a vertex of the graph, on one side?
pub open spec fn is_end(g: Set<Edge>, left: bool, s: u32) -> bool {
    exists|e: Edge| #[trigger] g.contains(e) && end_of(e, left) == s
}

/// Different vertices of one side.
pub open spec fn are_ends(g: Set<Edge>, left: bool, list: Seq<u32>) -> bool {
    list.no_duplicates() && forall|s: u32| #[trigger] list.contains(s) ==> is_end(g, left, s)
}

/// Does the graph have `n` different vertices on each side?
pub open spec fn is_wide(g: Set<Edge>, n: nat) -> bool {
    &&& exists|a: Seq<u32>| #[trigger] are_ends(g, true, a) && a.len() == n
    &&& exists|b: Seq<u32>| #[trigger] are_ends(g, false, b) && b.len() == n
}

proof fn lemma_push_contains(list: Seq<u32>, x: u32)
    ensures
        forall|s: u32| #[trigger] list.push(x).contains(s) <==> list.contains(s) || s == x,
        list.no_duplicates() && !list.contains(x) ==> list.push(x).no_duplicates(),
{
    let more = list.push(x);
    assert forall|s: u32| #[trigger] more.contains(s) <==> list.contains(s) || s == x by {
        if list.contains(s) {
            let k = choose|k: int| 0 <= k < list.len() && list[k] == s;
            assert(more[k] == s);
        }
        assert(more[list.len() as int] == x);
    }
}

proof fn lemma_end_push(window: Seq<Aligned>, r: int, i: u32, j: u32, left: bool, s: u32)
    requires
        0 <= r < window.len(),
    ensures
        is_end(eligible(window.take(r + 1), i, j), left, s) <==> is_end(
            eligible(window.take(r), i, j),
            left,
            s,
        ) || (window[r].1 != i && window[r].2 != j && end_of((window[r].1, window[r].2), left) == s),
{
    let more = eligible(window.take(r + 1), i, j);
    let less = eligible(window.take(r), i, j);
    let own = (window[r].1, window[r].2);
    if is_end(more, left, s) {
        let e = choose|e: Edge| #[trigger] more.contains(e) && end_of(e, left) == s;
        lemma_row_push(window, r, e);
        if e != own {
            assert(less.contains(e));
        }
    }
    if is_end(less, left, s) {
        let e = choose|e: Edge| #[trigger] less.contains(e) && end_of(e, left) == s;
        lemma_row_push(window, r, e);
        assert(more.contains(e));
    }
    if own.0 != i && own.1 != j && end_of(own, left) == s {
        lemma_row_push(window, r, own);
        assert(more.contains(own));
    }
}

/// A list of different vertices as long as the quota.
proof fn lemma_ends_take(g: Set<Edge>, left: bool, list: Seq<u32>, n: nat)
    requires
        are_ends(g, left, list),
        list.len() >= n,
    ensures
        exists|a: Seq<u32>| #[trigger] are_ends(g, left, a) && a.len() == n,
{
    let part = list.take(n as int);
    assert forall|s: u32| #[trigger] part.contains(s) implies is_end(g, left, s) by {
        let k = choose|k: int| 0 <= k < part.len() && part[k] == s;
        assert(list[k] == s);
        assert(list.contains(s));
    }
    assert(are_ends(g, left, part));
}

proof fn lemma_wide_enough(g: Set<Edge>, a: Seq<u32>, b: Seq<u32>, n: nat)
    requires
        are_ends(g, true, a),
        are_ends(g, false, b),
        a.len() >= n,
        b.len() >= n,
    ensures
        is_wide(g, n),
{
    lemma_ends_take(g, true, a, n);
    lemma_ends_take(g, false, b, n);
}

/// Fewer vertices on one side than the quota: neither the width nor the matching
/// can reach it.
proof fn lemma_too_narrow(g: Set<Edge>, list: Seq<u32>, left: bool, n: nat)
    requires
        forall|e: Edge| #[trigger] g.contains(e) ==> list.contains(end_of(e, left)),
        list.len() < n,
    ensures
        !is_wide(g, n),
        !has_matching(g, n),
{
    if has_matching(g, n) {
        let m = choose|m: Seq<Edge>| #[trigger] is_matching(g, m) && m.len() == n;
        lemma_width(g, list, left, m);
    }
    if is_wide(g, n) {
        let a = choose|a: Seq<u32>| #[trigger] are_ends(g, left, a) && a.len() == n;
        let s = Seq::new(n, |k: int| choose|c: int| 0 <= c < list.len() && list[c] == a[k]);
        assert forall|k: int| 0 <= k < n implies 0 <= #[trigger] s[k] < list.len() && list[s[k]]
            == a[k] by {
            assert(a.contains(a[k]));
            assert(is_end(g, left, a[k]));
            let e = choose|e: Edge| #[trigger] g.contains(e) && end_of(e, left) == a[k];
            assert(list.contains(a[k]));
        }
        assert forall|k: int, l: int| 0 <= k < s.len() && 0 <= l < s.len() && k != l implies s[k]
            != s[l] by {
            assert(a[k] != a[l]);
        }
        lemma_pigeonhole(s, list.len());
    }
}

/// The full lists of both sides decide the width.
proof fn lemma_is_wide(g: Set<Edge>, a: Seq<u32>, b: Seq<u32>, n: nat)
    requires
        a.no_duplicates(),
        b.no_duplicates(),
        forall|s: u32| #[trigger] a.contains(s) <==> is_end(g, true, s),
        forall|s: u32| #[trigger] b.contains(s) <==> is_end(g, false, s),
    ensures
        is_wide(g, n) <==> a.len() >= n && b.len() >= n,
        has_matching(g, n) ==> a.len() >= n && b.len() >= n,
{
    if a.len() >= n && b.len() >= n {
        lemma_wide_enough(g, a, b, n);
    }
    if a.len() < n {
        assert forall|e: Edge| #[trigger] g.contains(e) implies a.contains(end_of(e, true)) by {
            assert(is_end(g, true, end_of(e, true)));
        }
        lemma_too_narrow(g, a, true, n);
    }
    if b.len() < n {
        assert forall|e: Edge| #[trigger] g.contains(e) implies b.contains(end_of(e, false)) by {
            assert(is_end(g, false, end_of(e, false)));
        }
        lemma_too_narrow(g, b, false, n);
    }
}

} // verus!
