//! The search for maximal cliques.
//!
//! A clique is a set of vertices each linked to every other; it is maximal when
//! no other vertex is linked to all of them. Enumeration is exponential in the
//! worst case, so every set operation is charged against a budget before it runs,
//! and the number of cliques has a ceiling of its own.

use crate::sets::{difference, duplicate, intersection, intersection_len, members};
use std::collections::HashSet;
use vstd::arithmetic::power2::pow2;
use vstd::prelude::*;

verus! {

broadcast use vstd::std_specs::hash::group_hash_axioms;

/// How much of the clique search one connected component may cost, counted in
/// set probes.
pub const SEARCH_BUDGET_PER_COMPONENT: usize = 50_000_000;

/// How many groups one connected component may produce before it is abandoned.
pub const MAX_GROUPS_PER_COMPONENT: usize = 100_000;

/// The neighbour sets of a graph on the vertices `0..len`.
pub open spec fn graph_of(adjacency: Seq<HashSet<usize>>) -> Seq<Set<usize>> {
    adjacency.map_values(|s: HashSet<usize>| s@)
}

/// Links stay inside the graph, run both ways, and never join a vertex to itself.
pub open spec fn is_graph(g: Seq<Set<usize>>) -> bool {
    forall|u: usize, v: usize|
        u < g.len() && #[trigger] g[u as int].contains(v) ==> v < g.len() && v != u
            && g[v as int].contains(u)
}

/// Is `w` linked to every member of `k`?
pub open spec fn extends(g: Seq<Set<usize>>, k: Set<usize>, w: usize) -> bool {
    w < g.len() && forall|u: usize| #[trigger] k.contains(u) ==> g[w as int].contains(u)
}

/// Every member of `k` is linked to every other.
pub open spec fn is_clique(g: Seq<Set<usize>>, k: Set<usize>) -> bool {
    &&& forall|u: usize| #[trigger] k.contains(u) ==> u < g.len()
    &&& forall|u: usize, v: usize| #[trigger]
        k.contains(u) && #[trigger] k.contains(v) && u != v ==> g[u as int].contains(v)
}

/// A clique that nothing in `universe` extends.
pub open spec fn is_maximal_in(g: Seq<Set<usize>>, universe: Set<usize>, k: Set<usize>) -> bool {
    &&& k.finite()
    &&& k.subset_of(universe)
    &&& is_clique(g, k)
    &&& forall|w: usize| #[trigger] universe.contains(w) ==> !extends(g, k, w)
}

/// A clique that nothing in the graph extends.
pub open spec fn is_maximal_clique(g: Seq<Set<usize>>, k: Set<usize>) -> bool {
    &&& k.finite()
    &&& is_clique(g, k)
    &&& forall|w: usize| !#[trigger] extends(g, k, w)
}

/// The cliques a search step answers for: those holding all of `r`, drawn from
/// `r` and `p` alone, with more than one member, that nothing in sight extends.
pub open spec fn is_target(
    g: Seq<Set<usize>>,
    r: Set<usize>,
    p: Set<usize>,
    x: Set<usize>,
    k: Set<usize>,
) -> bool {
    &&& is_maximal_in(g, r.union(p).union(x), k)
    &&& r.subset_of(k)
    &&& k.subset_of(r.union(p))
    &&& k.len() > 1
}

/// A step's arguments fit together: `r` is a clique, `p` and `x` hold different
/// vertices, and each of them is linked to all of `r`.
pub open spec fn is_step(
    g: Seq<Set<usize>>,
    r: Set<usize>,
    p: Set<usize>,
    x: Set<usize>,
) -> bool {
    &&& r.finite()
    &&& p.finite()
    &&& x.finite()
    &&& is_clique(g, r)
    &&& p.disjoint(x)
    &&& forall|w: usize| #[trigger] p.contains(w) ==> extends(g, r, w)
    &&& forall|w: usize| #[trigger] x.contains(w) ==> extends(g, r, w)
}

/// What one step's own set operations can cost when `m` vertices are in sight.
pub open spec fn step_cost(m: nat) -> nat {
    2 * m * m + m + 1
}

/// The most probes a search over `q` candidates can spend when `m` vertices are
/// in sight.
pub open spec fn work(q: nat, m: nat) -> nat {
    step_cost(m) * pow2(q)
}

/// The most probes a search over `n` candidates can spend when they are all linked to
/// each other: there is one way to go at every step.
pub open spec fn complete_work(n: nat) -> nat
    decreases n,
{
    if n == 0 {
        1
    } else {
        1 + 3 * n + complete_work((n - 1) as nat)
    }
}

/// The sets a list of cliques stands for.
pub open spec fn found(cliques: Seq<HashSet<usize>>) -> Seq<Set<usize>> {
    cliques.map_values(|s: HashSet<usize>| s@)
}

/// The cliques that a search had in hand at its steps: different ones, each holding all
/// of `r` and drawn from `r` and `p` alone.
pub open spec fn are_steps(
    g: Seq<Set<usize>>,
    r: Set<usize>,
    p: Set<usize>,
    steps: Seq<Set<usize>>,
) -> bool {
    &&& steps.no_duplicates()
    &&& forall|i: int|
        0 <= i < steps.len() ==> is_clique(g, #[trigger] steps[i]) && r.subset_of(steps[i])
            && steps[i].subset_of(r.union(p))
}

/// Why a component's search stopped early. Any of these means the groups found
/// so far are incomplete.
#[derive(Clone, Copy, Debug, PartialEq, Eq, Structural)]
pub enum Halt {
    /// The search ran out of probes.
    Budget,
    /// It produced more cliques than can be reported.
    Groups,
    /// The user interrupted the run.
    Interrupted,
}

/// What one component's search is allowed to spend.
#[derive(Clone, Copy, Debug)]
pub struct Ceilings {
    /// Set probes the search may make.
    pub budget: usize,
    /// Groups it may emit.
    pub groups: usize,
}

impl Ceilings {
    /// The ceilings every run uses.
    pub fn shipped() -> (c: Ceilings)
        ensures
            c.budget == SEARCH_BUDGET_PER_COMPONENT,
            c.groups == MAX_GROUPS_PER_COMPONENT,
    {
        Ceilings { budget: SEARCH_BUDGET_PER_COMPONENT, groups: MAX_GROUPS_PER_COMPONENT }
    }
}

/// One component's clique search, and the ceilings it runs under.
pub struct Search<'a> {
    pub adjacency: &'a [HashSet<usize>],
    pub cliques: Vec<HashSet<usize>>,
    pub ceilings: Ceilings,
    /// Set probes left; the search stops when it runs out.
    pub budget: usize,
    pub halted: Option<Halt>,
}

/// What one intersection between a vertex's neighbours and `other` costs, in
/// probes: the smaller set is walked, each member looked up in the larger.
pub fn intersection_cost(neighbours: &HashSet<usize>, other: &HashSet<usize>) -> (cost: usize)
    ensures
        cost == cost_of(neighbours@, other@),
{
    let a = neighbours.len();
    let b = other.len();
    if a <= b {
        a
    } else {
        b
    }
}

/// The smaller of the two sizes.
pub open spec fn cost_of(a: Set<usize>, b: Set<usize>) -> nat {
    if a.len() <= b.len() {
        a.len()
    } else {
        b.len()
    }
}

impl<'a> Search<'a> {
    /// The graph being searched.
    pub open spec fn graph(&self) -> Seq<Set<usize>> {
        graph_of(self.adjacency@)
    }

    /// The same search, with the same cliques in hand.
    pub open spec fn same_search(&self, other: &Search<'a>) -> bool {
        &&& self.adjacency@ == other.adjacency@
        &&& self.ceilings == other.ceilings
    }

    pub fn new(adjacency: &'a [HashSet<usize>], ceilings: Ceilings) -> (search: Search<'a>)
        ensures
            search.adjacency@ == adjacency@,
            search.cliques@.len() == 0,
            search.ceilings == ceilings,
            search.budget == ceilings.budget,
            search.halted is None,
    {
        Search {
            adjacency,
            cliques: Vec::new(),
            ceilings,
            budget: ceilings.budget,
            halted: None,
        }
    }

    /// The ceilings that are not about the work: has something already stopped
    /// the search, has the user, has it produced more groups than can be
    /// reported. `false` means the caller should unwind.
    ///
    /// `stop` answers whether the run has been interrupted, and is asked only
    /// when nothing has stopped the search yet.
    pub fn may_continue<F: Fn() -> bool>(&mut self, stop: &F) -> (go: bool)
        requires
            old(self).halted is None ==> stop.requires(()),
        ensures
            final(self).same_search(old(self)),
            final(self).cliques@ == old(self).cliques@,
            final(self).budget == old(self).budget,
            go <==> final(self).halted is None,
            old(self).halted is Some ==> final(self).halted == old(self).halted,
            old(self).halted is None ==> match final(self).halted {
                None => stop.ensures((), false) && old(self).cliques@.len()
                    <= old(self).ceilings.groups,
                Some(Halt::Interrupted) => stop.ensures((), true),
                Some(Halt::Groups) => stop.ensures((), false) && old(self).cliques@.len()
                    > old(self).ceilings.groups,
                Some(Halt::Budget) => false,
            },
    {
        if self.halted.is_some() {
            return false;
        }
        if stop() {
            self.halted = Some(Halt::Interrupted);
            return false;
        }
        if self.cliques.len() > self.ceilings.groups {
            self.halted = Some(Halt::Groups);
            return false;
        }
        true
    }

    /// Charge `probes` of set work against the budget. `false` means it ran out
    /// and the caller should unwind.
    pub fn spend(&mut self, probes: usize) -> (paid: bool)
        ensures
            final(self).same_search(old(self)),
            final(self).cliques@ == old(self).cliques@,
            paid <==> probes <= old(self).budget,
            paid ==> final(self).budget == old(self).budget - probes && final(self).halted
                == old(self).halted,
            !paid ==> final(self).budget == old(self).budget && final(self).halted == Some(
                Halt::Budget,
            ),
    {
        match self.budget.checked_sub(probes) {
            Some(left) => {
                self.budget = left;
                true
            },
            None => {
                self.halted = Some(Halt::Budget);
                false
            },
        }
    }
}

/// How much of `p` the vertex `v` is linked to.
pub open spec fn coverage(g: Seq<Set<usize>>, p: Set<usize>, v: usize) -> nat {
    g[v as int].intersect(p).len()
}

/// What it costs to intersect the neighbours of each of some vertices with `p`.
pub open spec fn toll(g: Seq<Set<usize>>, p: Set<usize>, s: Set<usize>) -> nat
    decreases s.len(),
{
    if s.finite() && s.len() > 0 {
        let v = s.choose();
        cost_of(g[v as int], p) + toll(g, p, s.remove(v))
    } else {
        0
    }
}

proof fn lemma_toll_remove(g: Seq<Set<usize>>, p: Set<usize>, s: Set<usize>, v: usize)
    requires
        s.finite(),
        s.contains(v),
    ensures
        toll(g, p, s) == cost_of(g[v as int], p) + toll(g, p, s.remove(v)),
    decreases s.len(),
{
    let w = s.choose();
    assert(s.contains(w));
    if w != v {
        lemma_toll_remove(g, p, s.remove(w), v);
        lemma_toll_remove(g, p, s.remove(v), w);
        assert(s.remove(w).remove(v) =~= s.remove(v).remove(w));
    }
}

proof fn lemma_toll_insert(g: Seq<Set<usize>>, p: Set<usize>, s: Set<usize>, v: usize)
    requires
        s.finite(),
        !s.contains(v),
    ensures
        toll(g, p, s.insert(v)) == cost_of(g[v as int], p) + toll(g, p, s),
{
    lemma_toll_remove(g, p, s.insert(v), v);
    assert(s.insert(v).remove(v) =~= s);
}

proof fn lemma_toll_grows(g: Seq<Set<usize>>, p: Set<usize>, s: Set<usize>, more: Set<usize>)
    requires
        more.finite(),
        s.subset_of(more),
    ensures
        toll(g, p, s) <= toll(g, p, more),
    decreases s.len(),
{
    vstd::set_lib::lemma_len_subset(s, more);
    if s.len() > 0 {
        let v = s.choose();
        assert(s.contains(v));
        lemma_toll_remove(g, p, s, v);
        lemma_toll_remove(g, p, more, v);
        lemma_toll_grows(g, p, s.remove(v), more.remove(v));
    }
}

proof fn lemma_toll_bound(g: Seq<Set<usize>>, p: Set<usize>, s: Set<usize>)
    requires
        s.finite(),
    ensures
        toll(g, p, s) <= s.len() * p.len(),
    decreases s.len(),
{
    if s.len() > 0 {
        let v = s.choose();
        assert(s.contains(v));
        lemma_toll_bound(g, p, s.remove(v));
        let n = s.len();
        let q = p.len();
        assert((n - 1) * q + q == n * q) by (nonlinear_arith);
    } else {
        assert(0 <= s.len() * p.len()) by (nonlinear_arith);
    }
}

/// One more of a list of different vertices costs its own share more.
proof fn lemma_toll_next(g: Seq<Set<usize>>, p: Set<usize>, list: Seq<usize>, i: int)
    requires
        list.no_duplicates(),
        0 <= i < list.len(),
    ensures
        toll(g, p, list.take(i + 1).to_set()) == toll(g, p, list.take(i).to_set()) + cost_of(
            g[list[i] as int],
            p,
        ),
{
    let less = list.take(i);
    assert(list.take(i + 1) =~= less.push(list[i]));
    less.lemma_push_to_set_commute(list[i]);
    if less.to_set().contains(list[i]) {
        let j = choose|j: int| 0 <= j < less.len() && less[j] == list[i];
        assert(list[j] == list[i]);
    }
    lemma_toll_insert(g, p, less.to_set(), list[i]);
}

proof fn lemma_toll_part(g: Seq<Set<usize>>, p: Set<usize>, list: Seq<usize>, i: int)
    requires
        0 <= i <= list.len(),
    ensures
        toll(g, p, list.take(i).to_set()) <= toll(g, p, list.to_set()),
{
    assert forall|v: usize| list.take(i).to_set().contains(v) implies list.to_set().contains(v) by {
        let j = choose|j: int| 0 <= j < list.take(i).len() && list.take(i)[j] == v;
        assert(list[j] == v);
    }
    lemma_toll_grows(g, p, list.take(i).to_set(), list.to_set());
}

proof fn lemma_toll_wider(g: Seq<Set<usize>>, p: Set<usize>, wider: Set<usize>, s: Set<usize>)
    requires
        p.len() <= wider.len(),
    ensures
        toll(g, p, s) <= toll(g, wider, s),
    decreases s.len(),
{
    if s.finite() && s.len() > 0 {
        lemma_toll_wider(g, p, wider, s.remove(s.choose()));
    }
}

proof fn lemma_toll_union(g: Seq<Set<usize>>, p: Set<usize>, a: Set<usize>, b: Set<usize>)
    requires
        a.finite(),
        b.finite(),
        a.disjoint(b),
    ensures
        toll(g, p, a.union(b)) == toll(g, p, a) + toll(g, p, b),
    decreases b.len(),
{
    if b.len() == 0 {
        b.lemma_len0_is_empty();
        assert(a.union(b) =~= a);
    } else {
        let v = b.choose();
        assert(b.contains(v));
        lemma_toll_union(g, p, a, b.remove(v));
        lemma_toll_remove(g, p, a.union(b), v);
        lemma_toll_remove(g, p, b, v);
        assert(a.union(b).remove(v) =~= a.union(b.remove(v)));
    }
}

/// The vertices of `w` that are linked to all of a clique.
pub open spec fn in_sight(g: Seq<Set<usize>>, w: Set<usize>, r: Set<usize>) -> Set<usize> {
    w.filter(|v: usize| extends(g, r, v))
}

/// The most that a step at the clique `r` costs in a search of `w`: one for the step, a
/// pass over what is in sight, and three intersections for each vertex of it.
pub open spec fn cost_at(g: Seq<Set<usize>>, w: Set<usize>, r: Set<usize>) -> nat {
    1 + in_sight(g, w, r).len() + 3 * toll(g, in_sight(g, w, r), in_sight(g, w, r))
}

/// What steps at these cliques cost together.
pub open spec fn bill(g: Seq<Set<usize>>, w: Set<usize>, steps: Seq<Set<usize>>) -> nat
    decreases steps.len(),
{
    if steps.len() == 0 {
        0
    } else {
        bill(g, w, steps.drop_last()) + cost_at(g, w, steps.last())
    }
}

/// Whether these steps account for what a search spent: they cost that much, or more
/// than it had where it ran out.
pub open spec fn accounts_for(
    g: Seq<Set<usize>>,
    w: Set<usize>,
    steps: Seq<Set<usize>>,
    before: int,
    after: int,
    halted: Option<Halt>,
) -> bool {
    if halted == Some(Halt::Budget) {
        before < bill(g, w, steps)
    } else {
        before - after <= bill(g, w, steps)
    }
}

proof fn lemma_cost_grows(g: Seq<Set<usize>>, w: Set<usize>, wider: Set<usize>, r: Set<usize>)
    requires
        wider.finite(),
        w.subset_of(wider),
    ensures
        cost_at(g, w, r) <= cost_at(g, wider, r),
{
    let a = in_sight(g, w, r);
    let b = in_sight(g, wider, r);
    assert(a.subset_of(b));
    assert(b.subset_of(wider));
    vstd::set_lib::lemma_len_subset(b, wider);
    vstd::set_lib::lemma_len_subset(a, b);
    lemma_toll_wider(g, a, b, a);
    lemma_toll_grows(g, b, a, b);
}

proof fn lemma_bill_grows(
    g: Seq<Set<usize>>,
    w: Set<usize>,
    wider: Set<usize>,
    steps: Seq<Set<usize>>,
)
    requires
        wider.finite(),
        w.subset_of(wider),
    ensures
        bill(g, w, steps) <= bill(g, wider, steps),
    decreases steps.len(),
{
    if steps.len() > 0 {
        lemma_bill_grows(g, w, wider, steps.drop_last());
        lemma_cost_grows(g, w, wider, steps.last());
    }
}

proof fn lemma_bill_joined(
    g: Seq<Set<usize>>,
    w: Set<usize>,
    a: Seq<Set<usize>>,
    b: Seq<Set<usize>>,
)
    ensures
        bill(g, w, a + b) == bill(g, w, a) + bill(g, w, b),
    decreases b.len(),
{
    if b.len() == 0 {
        assert(a + b =~= a);
    } else {
        lemma_bill_joined(g, w, a, b.drop_last());
        assert((a + b).drop_last() =~= a + b.drop_last());
    }
}

/// All of `p` and `x` is in sight of a step, and finding its pivot costs one
/// intersection for each at most.
proof fn lemma_own_bill(g: Seq<Set<usize>>, r: Set<usize>, p: Set<usize>, x: Set<usize>)
    requires
        is_step(g, r, p, x),
        p.finite(),
        x.finite(),
    ensures
        p.union(x).finite(),
        p.union(x).len() == p.len() + x.len(),
        bill(g, p.union(x), seq![r]) == 1 + p.len() + x.len() + 3 * toll(
            g,
            p.union(x),
            p.union(x),
        ),
        most_toll(g, p, x) <= toll(g, p.union(x), p.union(x)),
{
    let w = p.union(x);
    assert(in_sight(g, w, r) =~= w);
    assert(seq![r].drop_last() =~= Seq::<Set<usize>>::empty());
    assert(bill(g, w, seq![r].drop_last()) == 0);
    vstd::set_lib::lemma_set_disjoint_lens(p, x);
    lemma_toll_union(g, p, p, x);
    lemma_toll_wider(g, p, w, w);
}

/// Nothing is said to be linked to itself.
pub open spec fn has_no_loops(g: Seq<Set<usize>>, p: Set<usize>) -> bool {
    forall|v: usize| #[trigger] p.contains(v) ==> !g[v as int].contains(v)
}

/// Is some member of `x` linked to the whole of `p`?
pub open spec fn is_covered(g: Seq<Set<usize>>, p: Set<usize>, x: Set<usize>) -> bool {
    exists|v: usize| #[trigger] x.contains(v) && p.subset_of(g[v as int])
}

proof fn lemma_coverage_ceiling(g: Seq<Set<usize>>, p: Set<usize>, v: usize)
    requires
        p.finite(),
        v < g.len(),
    ensures
        coverage(g, p, v) <= p.len(),
        has_no_loops(g, p) && p.contains(v) ==> coverage(g, p, v) + 1 <= p.len(),
        p.subset_of(g[v as int]) ==> coverage(g, p, v) == p.len(),
{
    if p.subset_of(g[v as int]) {
        assert(g[v as int].intersect(p) =~= p);
    }
    let both = g[v as int].intersect(p);
    assert(both =~= p.intersect(g[v as int]));
    vstd::set_lib::lemma_len_subset(both, p);
    if has_no_loops(g, p) && p.contains(v) {
        vstd::set_lib::lemma_len_subset(both, p.remove(v));
    }
}

/// The most that choosing a pivot can cost: one intersection for each candidate, or for
/// each in `x` alone where one of those is linked to the whole of `p`.
pub open spec fn most_toll(g: Seq<Set<usize>>, p: Set<usize>, x: Set<usize>) -> nat {
    if is_covered(g, p, x) {
        toll(g, p, x)
    } else {
        toll(g, p, x) + toll(g, p, p)
    }
}

/// The pivot for this step: a candidate in `p` or `x` linked to the most of `p`.
/// `None` means the budget ran out while looking.
///
/// The walk stops the moment a candidate reaches the most that anything still to
/// come could reach. `x` is walked first because a candidate drawn from it can be
/// linked to the whole of `p`, while one drawn from `p` is never its own neighbour
/// and tops out one short; in that order a candidate at its own ceiling is the
/// best of them all.
pub fn choose_pivot(
    p: &HashSet<usize>,
    x: &HashSet<usize>,
    adjacency: &[HashSet<usize>],
    search: &mut Search,
) -> (pivot: Option<usize>)
    requires
        p@.len() > 0,
        forall|v: usize| #[trigger] p@.contains(v) ==> v < adjacency@.len(),
        forall|v: usize| #[trigger] x@.contains(v) ==> v < adjacency@.len(),
    ensures
        final(search).same_search(old(search)),
        final(search).cliques@ == old(search).cliques@,
        final(search).budget <= old(search).budget,
        pivot matches Some(v) ==> {
            &&& p@.contains(v) || x@.contains(v)
            &&& has_no_loops(graph_of(adjacency@), p@) ==> forall|u: usize|
                p@.contains(u) || x@.contains(u) ==> #[trigger] coverage(
                    graph_of(adjacency@),
                    p@,
                    u,
                ) <= coverage(graph_of(adjacency@), p@, v)
            &&& final(search).halted == old(search).halted
            &&& old(search).budget - final(search).budget <= most_toll(
                graph_of(adjacency@),
                p@,
                x@,
            )
            &&& old(search).budget - final(search).budget >= cost_of(
                graph_of(adjacency@)[v as int],
                p@,
            )
        },
        pivot is None ==> {
            &&& final(search).halted == Some(Halt::Budget)
            &&& old(search).budget < most_toll(graph_of(adjacency@), p@, x@)
        },
        x@.len() == 0 && is_clique(graph_of(adjacency@), p@) ==> match pivot {
            Some(v) => old(search).budget - final(search).budget == cost_of(
                graph_of(adjacency@)[v as int],
                p@,
            ),
            None => old(search).budget < p@.len(),
        },
{
    let ghost g = graph_of(adjacency@);
    let excluded = members(x);
    let candidates = members(p);
    let size = p.len();
    let mut best: Option<(usize, usize)> = None;
    let mut done: bool = false;
    proof {
        assert(excluded@.take(0).to_set() =~= Set::empty());
    }
    let mut i: usize = 0;
    while i < excluded.len() && !done
        invariant
            g == graph_of(adjacency@),
            p@.finite(),
            size == p@.len(),
            size > 0,
            excluded@.to_set() == x@,
            excluded@.len() == x@.len(),
            forall|v: usize| #[trigger] p@.contains(v) ==> v < adjacency@.len(),
            forall|v: usize| #[trigger] x@.contains(v) ==> v < adjacency@.len(),
            i <= excluded@.len(),
            search.same_search(old(search)),
            search.cliques@ == old(search).cliques@,
            search.halted == old(search).halted,
            search.budget <= old(search).budget,
            excluded@.no_duplicates(),
            old(search).budget - search.budget == toll(g, p@, excluded@.take(i as int).to_set()),
            i == 0 ==> best is None && !done,
            i > 0 ==> best is Some,
            best matches Some(b) ==> x@.contains(b.0) && b.1 == coverage(g, p@, b.0)
                && old(search).budget - search.budget >= cost_of(g[b.0 as int], p@),
            best matches Some(b) ==> forall|j: int|
                0 <= j < i ==> #[trigger] coverage(g, p@, excluded@[j]) <= b.1,
            done ==> best is Some && (best->0).1 >= size,
            best is Some && (best->0).1 >= size ==> done,
        decreases excluded@.len() - i,
    {
        let v = excluded[i];
        assert(x@.contains(v)) by {
            assert(excluded@.to_set().contains(excluded@[i as int]));
        }
        let cost = intersection_cost(&adjacency[v], p);
        assert(adjacency@[v as int]@ == g[v as int]);
        proof {
            lemma_toll_next(g, p@, excluded@, i as int);
            lemma_toll_part(g, p@, excluded@, i + 1);
        }
        if !search.spend(cost) {
            return None;
        }
        let covered = intersection_len(&adjacency[v], p);
        proof {
            lemma_coverage_ceiling(g, p@, v);
        }
        match best {
            Some((_, seen)) => {
                if covered > seen {
                    best = Some((v, covered));
                }
            },
            None => {
                best = Some((v, covered));
            },
        }
        if covered >= size {
            done = true;
        }
        i = i + 1;
    }
    let ghost walked = i;
    proof {
        assert(candidates@.take(0).to_set() =~= Set::empty());
        if is_covered(g, p@, x@) && !done {
            let v = choose|v: usize| #[trigger] x@.contains(v) && p@.subset_of(g[v as int]);
            assert(excluded@.to_set().contains(v));
            let j = choose|j: int| 0 <= j < excluded@.len() && excluded@[j] == v;
            lemma_coverage_ceiling(g, p@, v);
            assert(coverage(g, p@, excluded@[j]) <= (best->0).1);
        }
    }
    let mut k: usize = 0;
    while k < candidates.len() && !done
        invariant
            g == graph_of(adjacency@),
            p@.finite(),
            size == p@.len(),
            size > 0,
            excluded@.to_set() == x@,
            excluded@.len() == x@.len(),
            candidates@.to_set() == p@,
            candidates@.len() == p@.len(),
            forall|v: usize| #[trigger] p@.contains(v) ==> v < adjacency@.len(),
            forall|v: usize| #[trigger] x@.contains(v) ==> v < adjacency@.len(),
            k <= candidates@.len(),
            walked <= excluded@.len(),
            search.same_search(old(search)),
            search.cliques@ == old(search).cliques@,
            search.halted == old(search).halted,
            search.budget <= old(search).budget,
            excluded@.no_duplicates(),
            candidates@.no_duplicates(),
            old(search).budget - search.budget == toll(
                g,
                p@,
                excluded@.take(walked as int).to_set(),
            ) + toll(g, p@, candidates@.take(k as int).to_set()),
            is_covered(g, p@, x@) ==> done && k == 0,
            walked > 0 || k > 0 ==> best is Some,
            best matches Some(b) ==> (x@.contains(b.0) || p@.contains(b.0)) && b.1 == coverage(
                g,
                p@,
                b.0,
            ) && old(search).budget - search.budget >= cost_of(g[b.0 as int], p@),
            !done ==> walked == excluded@.len(),
            best matches Some(b) ==> forall|j: int|
                0 <= j < walked ==> #[trigger] coverage(g, p@, excluded@[j]) <= b.1,
            best matches Some(b) ==> forall|j: int|
                0 <= j < k ==> #[trigger] coverage(g, p@, candidates@[j]) <= b.1,
            k == 0 && done ==> best is Some && (best->0).1 >= size,
            k > 0 && done ==> walked == excluded@.len() && best is Some && (best->0).1 + 1 >= size,
            k == 0 && x@.len() == 0 ==> !done && old(search).budget == search.budget && best is None,
            x@.len() == 0 && is_clique(g, p@) && k > 0 ==> done && old(search).budget
                - search.budget == cost_of(g[(best->0).0 as int], p@),
        decreases candidates@.len() - k,
    {
        let v = candidates[k];
        assert(p@.contains(v)) by {
            assert(candidates@.to_set().contains(candidates@[k as int]));
        }
        let cost = intersection_cost(&adjacency[v], p);
        assert(adjacency@[v as int]@ == g[v as int]);
        proof {
            lemma_toll_next(g, p@, candidates@, k as int);
            lemma_toll_part(g, p@, candidates@, k + 1);
            lemma_toll_part(g, p@, excluded@, walked as int);
        }
        if !search.spend(cost) {
            return None;
        }
        let covered = intersection_len(&adjacency[v], p);
        proof {
            lemma_coverage_ceiling(g, p@, v);
            if is_clique(g, p@) {
                assert(p@.remove(v).subset_of(g[v as int].intersect(p@)));
                vstd::set_lib::lemma_len_subset(p@.remove(v), g[v as int].intersect(p@));
            }
        }
        match best {
            Some((_, seen)) => {
                if covered > seen {
                    best = Some((v, covered));
                }
            },
            None => {
                best = Some((v, covered));
            },
        }
        if covered >= size - 1 {
            done = true;
        }
        k = k + 1;
    }
    proof {
        lemma_toll_part(g, p@, excluded@, walked as int);
        lemma_toll_part(g, p@, candidates@, k as int);
        if k == 0 {
            assert(candidates@.take(0).to_set() =~= Set::empty());
        }
        assert forall|u: usize|
            has_no_loops(g, p@) && (p@.contains(u) || x@.contains(u)) implies #[trigger] coverage(
            g,
            p@,
            u,
        ) <= (best->0).1 by {
            lemma_coverage_ceiling(g, p@, u);
            if x@.contains(u) {
                assert(excluded@.to_set().contains(u));
                let j = choose|j: int| 0 <= j < excluded@.len() && excluded@[j] == u;
                if walked == excluded@.len() {
                    assert(coverage(g, p@, excluded@[j]) <= (best->0).1);
                }
            } else {
                assert(candidates@.to_set().contains(u));
                let j = choose|j: int| 0 <= j < candidates@.len() && candidates@[j] == u;
                if k == candidates@.len() {
                    assert(coverage(g, p@, candidates@[j]) <= (best->0).1);
                }
            }
        }
    }
    match best {
        Some((v, _)) => Some(v),
        None => None,
    }
}

/// The cliques added to a list since it was `before`.
pub open spec fn added_since(
    before: Seq<HashSet<usize>>,
    after: Seq<HashSet<usize>>,
) -> Seq<Set<usize>> {
    found(after).skip(before.len() as int)
}

/// At a leaf the only candidate is the clique in hand, and it is maximal exactly
/// when nothing was excluded from it.
proof fn lemma_leaf(g: Seq<Set<usize>>, r: Set<usize>, p: Set<usize>, x: Set<usize>, k: Set<usize>)
    requires
        is_graph(g),
        is_step(g, r, p, x),
        p.is_empty(),
    ensures
        is_target(g, r, p, x, k) <==> k == r && x.is_empty() && r.len() > 1,
{
    let universe = r.union(p).union(x);
    if is_target(g, r, p, x, k) {
        assert(k =~= r);
        assert forall|w: usize| !x.contains(w) by {
            if x.contains(w) {
                assert(universe.contains(w));
            }
        }
        assert(x =~= Set::empty());
    }
    if k == r && x.is_empty() && r.len() > 1 {
        assert forall|w: usize| #[trigger] universe.contains(w) implies !extends(g, k, w) by {
            if extends(g, k, w) {
                assert(r.contains(w));
                assert(g[w as int].contains(w));
            }
        }
    }
}

/// Branching on `v` answers for exactly the cliques that hold it.
proof fn lemma_branch(
    g: Seq<Set<usize>>,
    r: Set<usize>,
    p: Set<usize>,
    x: Set<usize>,
    v: usize,
    k: Set<usize>,
)
    requires
        is_graph(g),
        is_step(g, r, p, x),
        p.contains(v),
    ensures
        is_target(g, r.insert(v), g[v as int].intersect(p), g[v as int].intersect(x), k) <==> (
        is_target(g, r, p, x, k) && k.contains(v)),
{
    let near = g[v as int];
    let wide = r.union(p).union(x);
    let narrow = r.insert(v).union(near.intersect(p)).union(near.intersect(x));
    assert(narrow.subset_of(wide));
    assert(extends(g, r, v));
    if is_target(g, r.insert(v), near.intersect(p), near.intersect(x), k) {
        assert(k.contains(v));
        assert forall|w: usize| #[trigger] wide.contains(w) implies !extends(g, k, w) by {
            if extends(g, k, w) {
                assert(g[w as int].contains(v));
                assert(near.contains(w));
                if r.contains(w) {
                    assert(k.contains(w));
                    assert(g[w as int].contains(w));
                }
                assert(narrow.contains(w));
            }
        }
        assert(r.subset_of(k));
        assert(k.subset_of(r.union(p)));
    }
    if is_target(g, r, p, x, k) && k.contains(v) {
        assert forall|w: usize| k.contains(w) implies #[trigger] r.insert(v).union(
            near.intersect(p),
        ).contains(w) by {
            if w != v {
                assert(g[v as int].contains(w));
                assert(r.union(p).contains(w));
            }
        }
        assert(k.subset_of(narrow));
        assert forall|w: usize| #[trigger] narrow.contains(w) implies !extends(g, k, w) by {
            assert(wide.contains(w));
        }
    }
}

/// The step a branch on `v` takes fits together when its parent does.
proof fn lemma_child_step(
    g: Seq<Set<usize>>,
    r: Set<usize>,
    p: Set<usize>,
    x: Set<usize>,
    v: usize,
)
    requires
        is_graph(g),
        is_step(g, r, p, x),
        p.contains(v),
    ensures
        is_step(g, r.insert(v), g[v as int].intersect(p), g[v as int].intersect(x)),
        g[v as int].intersect(p).len() < p.len(),
        g[v as int].intersect(x).len() <= x.len(),
{
    let near = g[v as int];
    assert(extends(g, r, v));
    assert forall|w: usize| #[trigger] p.contains(w) implies !g[w as int].contains(w) by {
        assert(extends(g, r, w));
    }
    lemma_coverage_ceiling(g, p, v);
    assert(near.intersect(p) =~= p.intersect(near));
    assert(near.intersect(x) =~= x.intersect(near));
    vstd::set_lib::lemma_len_intersect(p, near);
    vstd::set_lib::lemma_len_intersect(x, near);
    vstd::set_lib::lemma_set_subset_finite(p, p.intersect(near));
    vstd::set_lib::lemma_set_subset_finite(x, x.intersect(near));
    assert forall|a: usize, b: usize| #[trigger]
        r.insert(v).contains(a) && #[trigger] r.insert(v).contains(b) && a != b implies g[a as int].contains(
        b,
    ) by {
        if a == v {
            assert(r.contains(b));
        } else if b == v {
            assert(r.contains(a));
            assert(g[v as int].contains(a));
        } else {
            assert(r.contains(a) && r.contains(b));
        }
    }
    assert forall|w: usize| near.contains(w) && extends(g, r, w) implies #[trigger] extends(
        g,
        r.insert(v),
        w,
    ) by {
        assert(g[w as int].contains(v));
    }
}

/// Moving `v` out of the candidates leaves exactly the cliques that do not hold it.
proof fn lemma_shift(
    g: Seq<Set<usize>>,
    r: Set<usize>,
    p: Set<usize>,
    x: Set<usize>,
    v: usize,
    k: Set<usize>,
)
    requires
        is_graph(g),
        is_step(g, r, p, x),
        p.contains(v),
    ensures
        is_target(g, r, p.remove(v), x.insert(v), k) <==> (is_target(g, r, p, x, k) && !k.contains(
            v,
        )),
{
    assert(r.union(p.remove(v)).union(x.insert(v)) =~= r.union(p).union(x));
    assert(extends(g, r, v));
    if r.contains(v) {
        assert(g[v as int].contains(v));
    }
}

/// Every maximal clique holds the pivot or one of the vertices it is not linked to.
proof fn lemma_pivot(
    g: Seq<Set<usize>>,
    r: Set<usize>,
    p: Set<usize>,
    x: Set<usize>,
    pivot: usize,
    k: Set<usize>,
)
    requires
        is_graph(g),
        is_step(g, r, p, x),
        p.contains(pivot) || x.contains(pivot),
        forall|w: usize| #[trigger] p.contains(w) ==> g[pivot as int].contains(w),
    ensures
        !is_target(g, r, p, x, k),
{
    if is_target(g, r, p, x, k) {
        assert(r.union(p).union(x).contains(pivot));
        assert(extends(g, r, pivot));
        assert forall|w: usize| #[trigger] k.contains(w) implies g[pivot as int].contains(w) by {
            assert(r.union(p).contains(w));
        }
        assert(extends(g, k, pivot));
    }
}

/// A set of numbers below `n` has at most `n` members.
pub proof fn lemma_bounded_len(s: Set<usize>, n: nat)
    requires
        s.finite(),
        forall|v: usize| #[trigger] s.contains(v) ==> v < n,
    ensures
        s.len() <= n,
    decreases n,
{
    if n == 0 {
        assert forall|v: usize| !s.contains(v) by {}
        assert(s =~= Set::empty());
    } else if n - 1 <= usize::MAX {
        let top = (n - 1) as usize;
        lemma_bounded_len(s.remove(top), (n - 1) as nat);
    } else {
        lemma_bounded_len(s, (n - 1) as nat);
    }
}

/// A larger search costs no less.
pub proof fn lemma_work_grows(q: nat, m: nat, wider: nat, more: nat)
    requires
        q <= wider,
        m <= more,
    ensures
        work(q, m) <= step_cost(more) * pow2(wider),
        pow2(q) <= pow2(wider),
        pow2(q) > 0,
        step_cost(m) <= step_cost(more),
{
    assert(2 * m * m <= 2 * more * more) by (nonlinear_arith)
        requires
            m <= more,
    ;
    vstd::arithmetic::power2::lemma_pow2_pos(q);
    if q < wider {
        vstd::arithmetic::power2::lemma_pow2_strictly_increases(q, wider);
    }
    let a = step_cost(m);
    let b = step_cost(more);
    let c = pow2(q);
    let d = pow2(wider);
    assert(a * c <= b * d) by (nonlinear_arith)
        requires
            0 <= a <= b,
            0 <= c <= d,
    ;
}

/// A step's own operations stay within one step's cost.
proof fn lemma_own_cost(m: nat, q: nat, k: nat)
    requires
        q <= m,
        k <= q,
    ensures
        1 + m * q + q + k * m <= step_cost(m),
        m * q >= 0,
        k * m >= 0,
{
    assert(m * q <= m * m && k * m <= m * m && 0 <= m * q && 0 <= k * m) by (nonlinear_arith)
        requires
            q <= m,
            k <= q,
    ;
    assert(2 * m * m == m * m + m * m) by (nonlinear_arith);
}

/// Where all candidates are linked to each other, the pivot is the only one to branch
/// on.
proof fn lemma_one_branch(g: Seq<Set<usize>>, p: Set<usize>, pivot: usize, branches: Seq<usize>)
    requires
        is_clique(g, p),
        p.contains(pivot),
        branches.no_duplicates(),
        branches.to_set() == p.difference(g[pivot as int]),
    ensures
        branches.len() <= 1,
{
    if branches.len() > 1 {
        let a = branches[0];
        let b = branches[1];
        assert(branches.to_set().contains(a) && branches.to_set().contains(b));
        assert(p.contains(a) && p.contains(b));
        assert(a == pivot);
        assert(b == pivot);
    }
}

/// The steps below a branch on `v` are different from all before it.
proof fn lemma_more_steps(
    g: Seq<Set<usize>>,
    r: Set<usize>,
    p0: Set<usize>,
    left: Set<usize>,
    v: usize,
    child_p: Set<usize>,
    steps: Seq<Set<usize>>,
    deeper: Seq<Set<usize>>,
)
    requires
        are_steps(g, r, p0, steps),
        forall|i: int|
            0 <= i < steps.len() ==> #[trigger] steps[i] == r || !steps[i].subset_of(r.union(left)),
        left.subset_of(p0),
        left.contains(v),
        !r.contains(v),
        child_p.subset_of(left),
        are_steps(g, r.insert(v), child_p, deeper),
    ensures
        are_steps(g, r, p0, steps + deeper),
        forall|i: int|
            0 <= i < (steps + deeper).len() ==> #[trigger] (steps + deeper)[i] == r || !(steps
                + deeper)[i].subset_of(r.union(left)) || (steps + deeper)[i].contains(v),
{
    let all = steps + deeper;
    assert forall|i: int| 0 <= i < deeper.len() implies (#[trigger] deeper[i]).contains(v)
        && deeper[i].subset_of(r.union(left)) by {
        assert(r.insert(v).contains(v));
        assert(r.insert(v).subset_of(deeper[i]));
        assert(deeper[i].subset_of(r.insert(v).union(child_p)));
    }
    assert forall|i: int, j: int| 0 <= i < all.len() && 0 <= j < all.len() && i != j implies all[i]
        != all[j] by {
        let n = steps.len();
        if i < n && j < n {
            assert(steps[i] != steps[j]);
        } else if i >= n && j >= n {
            assert(deeper[i - n] != deeper[j - n]);
        } else if i < n {
            assert(deeper[j - n].contains(v));
            assert(steps[i] == r || !steps[i].subset_of(r.union(left)));
        } else {
            assert(deeper[i - n].contains(v));
            assert(steps[j] == r || !steps[j].subset_of(r.union(left)));
        }
    }
    assert forall|i: int| 0 <= i < all.len() implies is_clique(g, #[trigger] all[i])
        && r.subset_of(all[i]) && all[i].subset_of(r.union(p0)) by {
        let n = steps.len();
        if i < n {
            assert(all[i] == steps[i]);
        } else {
            let k = deeper[i - n];
            assert(all[i] == k);
            assert(is_clique(g, k));
            assert(r.insert(v).subset_of(k));
            assert(k.subset_of(r.union(left)));
        }
    }
    assert forall|i: int| 0 <= i < all.len() implies #[trigger] all[i] == r || !all[i].subset_of(
        r.union(left),
    ) || all[i].contains(v) by {
        let n = steps.len();
        if i < n {
            assert(all[i] == steps[i]);
        } else {
            assert(all[i] == deeper[i - n]);
        }
    }
}

/// Whether the targets of a step are split between those found and those of what is
/// left of it.
#[verifier::opaque]
spec fn is_split(
    g: Seq<Set<usize>>,
    r: Set<usize>,
    p0: Set<usize>,
    x0: Set<usize>,
    earlier: Seq<Set<usize>>,
    left: Set<usize>,
    gone: Set<usize>,
) -> bool {
    &&& earlier.no_duplicates()
    &&& forall|k: Set<usize>|
        #![trigger is_target(g, r, p0, x0, k)]
        is_target(g, r, p0, x0, k) <==> (earlier.contains(k) || is_target(g, r, left, gone, k))
    &&& forall|k: Set<usize>| #[trigger]
        earlier.contains(k) ==> !is_target(g, r, left, gone, k)
}

proof fn lemma_split_found(
    g: Seq<Set<usize>>,
    r: Set<usize>,
    p0: Set<usize>,
    x0: Set<usize>,
    earlier: Seq<Set<usize>>,
    left: Set<usize>,
    gone: Set<usize>,
)
    requires
        is_split(g, r, p0, x0, earlier, left, gone),
    ensures
        earlier.no_duplicates(),
        forall|k: Set<usize>| #[trigger] earlier.contains(k) ==> is_target(g, r, p0, x0, k),
        forall|k: Set<usize>|
            #![trigger is_target(g, r, p0, x0, k)]
            is_target(g, r, p0, x0, k) ==> earlier.contains(k) || is_target(g, r, left, gone, k),
{
    reveal(is_split);
    assert forall|k: Set<usize>| #[trigger] earlier.contains(k) implies is_target(
        g,
        r,
        p0,
        x0,
        k,
    ) by {}
}

/// The cliques found below a branch are different from those found before it, and are
/// the parent's too.
proof fn lemma_split_child(
    g: Seq<Set<usize>>,
    r: Set<usize>,
    p0: Set<usize>,
    x0: Set<usize>,
    left: Set<usize>,
    gone: Set<usize>,
    v: usize,
    earlier: Seq<Set<usize>>,
    child: Seq<Set<usize>>,
)
    requires
        is_graph(g),
        is_step(g, r, left, gone),
        left.contains(v),
        is_split(g, r, p0, x0, earlier, left, gone),
        child.no_duplicates(),
        forall|k: Set<usize>| #[trigger]
            child.contains(k) ==> is_target(
                g,
                r.insert(v),
                g[v as int].intersect(left),
                g[v as int].intersect(gone),
                k,
            ),
    ensures
        (earlier + child).no_duplicates(),
        forall|k: Set<usize>| #[trigger]
            (earlier + child).contains(k) <==> earlier.contains(k) || child.contains(k),
        forall|k: Set<usize>| #[trigger]
            (earlier + child).contains(k) ==> is_target(g, r, p0, x0, k),
{
    reveal(is_split);
    let whole = earlier + child;
    assert forall|k: Set<usize>| #[trigger] child.contains(k) implies is_target(
        g,
        r,
        left,
        gone,
        k,
    ) by {
        lemma_branch(g, r, left, gone, v, k);
    }
    assert forall|i: int, j: int|
        0 <= i < whole.len() && 0 <= j < whole.len() && i != j implies whole[i] != whole[j] by {
        if i < earlier.len() && j >= earlier.len() {
            assert(earlier.contains(whole[i]));
            assert(child[j - earlier.len()] == whole[j]);
            assert(child.contains(whole[j]));
        } else if j < earlier.len() && i >= earlier.len() {
            assert(earlier.contains(whole[j]));
            assert(child[i - earlier.len()] == whole[i]);
            assert(child.contains(whole[i]));
        } else if i >= earlier.len() && j >= earlier.len() {
            assert(child[i - earlier.len()] == whole[i]);
            assert(child[j - earlier.len()] == whole[j]);
        } else {
            assert(earlier[i] == whole[i] && earlier[j] == whole[j]);
        }
    }
    assert forall|k: Set<usize>| #[trigger]
        whole.contains(k) <==> (earlier.contains(k) || child.contains(k)) by {
        if whole.contains(k) {
            let i = choose|i: int| 0 <= i < whole.len() && whole[i] == k;
            if i < earlier.len() {
                assert(earlier[i] == k);
            } else {
                assert(child[i - earlier.len()] == k);
            }
        }
        if earlier.contains(k) {
            let i = choose|i: int| 0 <= i < earlier.len() && earlier[i] == k;
            assert(whole[i] == k);
        }
        if child.contains(k) {
            let i = choose|i: int| 0 <= i < child.len() && child[i] == k;
            assert(whole[i + earlier.len()] == k);
        }
    }
    assert forall|k: Set<usize>| #[trigger] whole.contains(k) implies is_target(g, r, p0, x0, k) by {
        assert(earlier.contains(k) || child.contains(k));
    }
}

/// Once a branch was searched to its end, its vertex is set aside.
proof fn lemma_split_next(
    g: Seq<Set<usize>>,
    r: Set<usize>,
    p0: Set<usize>,
    x0: Set<usize>,
    left: Set<usize>,
    gone: Set<usize>,
    v: usize,
    earlier: Seq<Set<usize>>,
    child: Seq<Set<usize>>,
)
    requires
        is_graph(g),
        is_step(g, r, left, gone),
        left.contains(v),
        is_split(g, r, p0, x0, earlier, left, gone),
        child.no_duplicates(),
        forall|k: Set<usize>| #[trigger]
            child.contains(k) ==> is_target(
                g,
                r.insert(v),
                g[v as int].intersect(left),
                g[v as int].intersect(gone),
                k,
            ),
        forall|k: Set<usize>|
            #![trigger is_target(
                g,
                r.insert(v),
                g[v as int].intersect(left),
                g[v as int].intersect(gone),
                k,
            )]
            is_target(
                g,
                r.insert(v),
                g[v as int].intersect(left),
                g[v as int].intersect(gone),
                k,
            ) ==> child.contains(k),
    ensures
        is_split(g, r, p0, x0, earlier + child, left.remove(v), gone.insert(v)),
{
    lemma_split_child(g, r, p0, x0, left, gone, v, earlier, child);
    let whole = earlier + child;
    assert forall|k: Set<usize>|
        #![trigger is_target(g, r, p0, x0, k)]
        #![trigger whole.contains(k)]
        {
            &&& is_target(g, r, p0, x0, k) <==> (whole.contains(k) || is_target(
                g,
                r,
                left.remove(v),
                gone.insert(v),
                k,
            ))
            &&& whole.contains(k) ==> !is_target(g, r, left.remove(v), gone.insert(v), k)
        } by {
        reveal(is_split);
        lemma_branch(g, r, left, gone, v, k);
        lemma_shift(g, r, left, gone, v, k);
        assert(child.contains(k) <==> is_target(g, r, left, gone, k) && k.contains(v));
        assert(whole.contains(k) <==> earlier.contains(k) || child.contains(k));
    }
    reveal(is_split);
}

/// One step of a search as it begins: its sets, the cliques in hand, what it has to
/// spend, and how many groups may be reported.
pub struct Step {
    pub g: Seq<Set<usize>>,
    pub r: Set<usize>,
    pub p: Set<usize>,
    pub x: Set<usize>,
    pub start: Seq<HashSet<usize>>,
    pub before: int,
    pub groups: int,
}

impl Step {
    /// Its sets are those of a step in a graph.
    pub open spec fn fits(self) -> bool {
        is_graph(self.g) && is_step(self.g, self.r, self.p, self.x)
    }

    /// All candidates are linked to each other, and none was excluded.
    pub open spec fn is_complete(self) -> bool {
        self.x.len() == 0 && is_clique(self.g, self.p)
    }

    /// Everything in sight.
    pub open spec fn sight(self) -> Set<usize> {
        self.p.union(self.x)
    }

    /// Is this one of the cliques it answers for?
    pub open spec fn answers_for(self, k: Set<usize>) -> bool {
        is_target(self.g, self.r, self.p, self.x, k)
    }

    /// The step below it on the branch `v`, when `left` are still candidates and `gone`
    /// are not.
    spec fn below(
        self,
        left: Set<usize>,
        gone: Set<usize>,
        v: usize,
        now: Seq<HashSet<usize>>,
        paid: int,
    ) -> Step {
        Step {
            g: self.g,
            r: self.r.insert(v),
            p: self.g[v as int].intersect(left),
            x: self.g[v as int].intersect(gone),
            start: now,
            before: paid,
            groups: self.groups,
        }
    }
}

/// Whether a step came to this: `end` are the cliques in hand, and `after` is left to
/// spend.
///
/// The cliques it added are different ones that it answers for; they are all of them
/// where nothing halted it. What it spent is accounted for by steps at different
/// cliques, and where it ran out, so is more than it had.
pub open spec fn is_answer(
    s: Step,
    end: Seq<HashSet<usize>>,
    after: int,
    halted: Option<Halt>,
) -> bool {
    &&& added_since(s.start, end).no_duplicates()
    &&& forall|k: Set<usize>| #[trigger]
        added_since(s.start, end).contains(k) ==> s.answers_for(k)
    &&& exists|steps: Seq<Set<usize>>| #[trigger]
        are_steps(s.g, s.r, s.p, steps) && accounts_for(
            s.g,
            s.sight(),
            steps,
            s.before,
            after,
            halted,
        )
    &&& match halted {
        None => {
            &&& forall|k: Set<usize>| #[trigger]
                s.answers_for(k) ==> added_since(s.start, end).contains(k)
            &&& added_since(s.start, end).len() <= pow2(s.p.len())
            &&& s.before - after <= work(s.p.len(), s.p.len() + s.x.len())
        },
        Some(Halt::Budget) => s.before < work(s.p.len(), s.p.len() + s.x.len()),
        Some(Halt::Groups) => s.groups < s.start.len() + pow2(s.p.len()),
        Some(Halt::Interrupted) => true,
    }
    &&& s.is_complete() ==> match halted {
        None => s.before - after <= complete_work(s.p.len()) && end.len() <= s.start.len() + 1,
        Some(Halt::Budget) => s.before < complete_work(s.p.len()),
        Some(Halt::Groups) => s.groups <= s.start.len(),
        Some(Halt::Interrupted) => true,
    }
}

/// A step between two of its branches.
struct Midway {
    pivot: usize,
    branches: Seq<usize>,
    at: int,
    left: Set<usize>,
    gone: Set<usize>,
    now: Seq<HashSet<usize>>,
    budget: int,
    steps: Seq<Set<usize>>,
}

/// Whether the first branches of a step were searched to their ends.
#[verifier::opaque]
spec fn is_underway(s: Step, k: Midway) -> bool {
    let q = s.p.len();
    let m = s.p.len() + s.x.len();
    &&& s.fits()
    &&& is_step(s.g, s.r, k.left, k.gone)
    &&& 0 <= k.at <= k.branches.len() <= q
    &&& k.branches.no_duplicates()
    &&& k.left.len() == q - k.at
    &&& k.gone.len() == s.x.len() + k.at
    &&& k.left.subset_of(s.p)
    &&& k.left.union(k.gone) == s.sight()
    &&& s.is_complete() ==> k.branches.len() <= 1
    &&& s.is_complete() && k.at == 0 ==> k.left == s.p && k.gone.len() == 0 && k.now == s.start
        && s.before - k.budget <= 1 + 2 * q
    &&& s.is_complete() && k.at > 0 ==> k.now.len() <= s.start.len() + 1 && s.before - k.budget
        <= complete_work(q)
    &&& k.left.contains(k.pivot) || k.gone.contains(k.pivot)
    &&& forall|j: int| k.at <= j < k.branches.len() ==> k.left.contains(#[trigger] k.branches[j])
    &&& forall|w: usize|
        #![trigger k.left.contains(w)]
        k.left.contains(w) && !s.g[k.pivot as int].contains(w) ==> exists|j: int|
            k.at <= j < k.branches.len() && #[trigger] k.branches[j] == w
    &&& k.branches.to_set().subset_of(s.sight())
    &&& are_steps(s.g, s.r, s.p, k.steps)
    &&& forall|i: int|
        0 <= i < k.steps.len() ==> #[trigger] k.steps[i] == s.r || !k.steps[i].subset_of(
            s.r.union(k.left),
        )
    &&& s.before - k.budget <= bill(s.g, s.sight(), k.steps) - bill(
        s.g,
        s.sight(),
        seq![s.r],
    ) + 1 + q + toll(s.g, s.sight(), s.sight()) + 2 * toll(
        s.g,
        s.sight(),
        k.branches.take(k.at).to_set(),
    )
    &&& is_prefix(s.start, k.now)
    &&& is_split(s.g, s.r, s.p, s.x, added_since(s.start, k.now), k.left, k.gone)
    &&& added_since(s.start, k.now).len() <= pow2(q) - pow2((q - k.at) as nat)
    &&& s.before - k.budget <= 1 + m * q + q + k.at * m + step_cost(m) * (pow2(q) - pow2(
        (q - k.at) as nat,
    ))
}

/// Whether a list of cliques was only added to.
pub open spec fn is_prefix(before: Seq<HashSet<usize>>, after: Seq<HashSet<usize>>) -> bool {
    before.len() <= after.len() && found(after).take(before.len() as int) == found(before)
}

proof fn lemma_nothing_added(start: Seq<HashSet<usize>>)
    ensures
        is_prefix(start, start),
        added_since(start, start) == Seq::<Set<usize>>::empty(),
        forall|k: Set<usize>| !#[trigger] added_since(start, start).contains(k),
{
    assert(found(start).take(start.len() as int) =~= found(start));
    assert(found(start).skip(start.len() as int) =~= Seq::<Set<usize>>::empty());
}

/// What was added since the start is what was added before, and after that.
proof fn lemma_added_in_turn(
    start: Seq<HashSet<usize>>,
    now: Seq<HashSet<usize>>,
    end: Seq<HashSet<usize>>,
)
    requires
        is_prefix(start, now),
        is_prefix(now, end),
    ensures
        is_prefix(start, end),
        added_since(start, end) == added_since(start, now) + added_since(now, end),
{
    assert(found(end).take(start.len() as int) =~= found(end).take(now.len() as int).take(
        start.len() as int,
    ));
    assert(added_since(start, end) =~= added_since(start, now) + added_since(now, end));
}

proof fn lemma_work_of_a_step(m: nat, q: nat)
    requires
        q <= m,
    ensures
        1 + m * q + q + q * m <= step_cost(m),
        step_cost(m) <= work(q, m),
        pow2(q) >= 1,
{
    lemma_own_cost(m, q, q);
    vstd::arithmetic::power2::lemma_pow2_pos(q);
    let c = step_cost(m);
    assert(c * 1 <= c * pow2(q)) by (nonlinear_arith)
        requires
            1 <= pow2(q),
    ;
}

/// A step that may not begin adds nothing and spends nothing.
proof fn lemma_not_begun(s: Step, halted: Halt)
    requires
        s.fits(),
        halted == Halt::Groups || halted == Halt::Interrupted,
        halted == Halt::Groups ==> s.groups < s.start.len(),
    ensures
        is_answer(s, s.start, s.before, Some(halted)),
{
    lemma_nothing_added(s.start);
    let steps = Seq::<Set<usize>>::empty();
    assert(are_steps(s.g, s.r, s.p, steps));
    assert(accounts_for(s.g, s.sight(), steps, s.before, s.before, Some(halted)));
}

/// The clique in hand is one a step is at.
proof fn lemma_first_step(s: Step)
    requires
        s.fits(),
    ensures
        are_steps(s.g, s.r, s.p, seq![s.r]),
{
    let steps = seq![s.r];
    assert forall|i: int| 0 <= i < steps.len() implies is_clique(s.g, #[trigger] steps[i])
        && s.r.subset_of(steps[i]) && steps[i].subset_of(s.r.union(s.p)) by {
        assert(steps[i] == s.r);
    }
}

/// A step that cannot pay for its pivot was given too little.
proof fn lemma_unpaid_pivot(s: Step, after: int)
    requires
        s.fits(),
        s.before < 1 + s.p.len() + most_toll(s.g, s.p, s.x),
        s.is_complete() ==> s.before < 1 + 2 * s.p.len(),
    ensures
        is_answer(s, s.start, after, Some(Halt::Budget)),
{
    let q = s.p.len();
    let m = q + s.x.len();
    lemma_nothing_added(s.start);
    lemma_first_step(s);
    lemma_own_bill(s.g, s.r, s.p, s.x);
    lemma_work_of_a_step(m, q);
    lemma_toll_bound(s.g, s.p, s.p);
    lemma_toll_bound(s.g, s.p, s.x);
    assert(q * q + s.x.len() * q == m * q) by (nonlinear_arith)
        requires
            m == q + s.x.len(),
    ;
    assert(q * m >= 0) by (nonlinear_arith);
    lemma_complete_work_grows(q);
    assert(accounts_for(s.g, s.sight(), seq![s.r], s.before, after, Some(Halt::Budget)));
}

proof fn lemma_complete_work_grows(n: nat)
    ensures
        complete_work(n) >= 1 + 2 * n,
    decreases n,
{
    if n > 0 {
        lemma_complete_work_grows((n - 1) as nat);
    }
}

/// A step without candidates is at a clique that it adds, unless something extends it or
/// it has one member.
proof fn lemma_leaf_answers(s: Step, end: Seq<HashSet<usize>>)
    requires
        s.fits(),
        s.p.is_empty(),
        is_prefix(s.start, end),
        s.x.is_empty() && s.r.len() > 1 ==> added_since(s.start, end) == seq![s.r],
        !(s.x.is_empty() && s.r.len() > 1) ==> end == s.start,
    ensures
        is_answer(s, end, s.before - 1, None),
{
    lemma_nothing_added(s.start);
    lemma_first_step(s);
    lemma_own_bill(s.g, s.r, s.p, s.x);
    lemma_work_of_a_step(s.x.len(), 0);
    vstd::arithmetic::power2::lemma2_to64();
    assert(s.p =~= Set::<usize>::empty());
    assert(s.p.len() == 0);
    let added = added_since(s.start, end);
    assert forall|k: Set<usize>|
        #![trigger added.contains(k)]
        #![trigger s.answers_for(k)]
        added.contains(k) <==> s.answers_for(k) by {
        lemma_leaf(s.g, s.r, s.p, s.x, k);
        if s.x.is_empty() && s.r.len() > 1 {
            assert(added[0] == s.r);
        }
    }
    assert(accounts_for(s.g, s.sight(), seq![s.r], s.before, s.before - 1, None));
    assert(found(end).len() == end.len());
    assert(added.len() == end.len() - s.start.len());
}

/// A step that has paid for its pivot is about to branch.
proof fn lemma_underway_begins(s: Step, k: Midway)
    requires
        s.fits(),
        k.at == 0,
        k.left == s.p,
        k.gone == s.x,
        k.now == s.start,
        k.steps == seq![s.r],
        s.p.contains(k.pivot) || s.x.contains(k.pivot),
        k.branches.no_duplicates(),
        k.branches.to_set() == s.p.difference(s.g[k.pivot as int]),
        s.before - k.budget <= 1 + s.p.len() + most_toll(s.g, s.p, s.x),
        s.is_complete() ==> s.before - k.budget <= 1 + 2 * s.p.len(),
    ensures
        is_underway(s, k),
{
    reveal(is_underway);
    let q = s.p.len();
    let m = q + s.x.len();
    lemma_nothing_added(s.start);
    lemma_first_step(s);
    lemma_own_bill(s.g, s.r, s.p, s.x);
    lemma_toll_bound(s.g, s.p, s.p);
    lemma_toll_bound(s.g, s.p, s.x);
    assert(q * q + s.x.len() * q == m * q) by (nonlinear_arith)
        requires
            m == q + s.x.len(),
    ;
    assert(step_cost(m) * (pow2(q) - pow2((q - 0) as nat)) == 0) by (nonlinear_arith)
        requires
            pow2(q) == pow2((q - 0) as nat),
    ;
    assert(0 * m == 0);
    k.branches.unique_seq_to_set();
    vstd::set_lib::lemma_len_subset(k.branches.to_set(), s.p);
    assert forall|w: usize|
        #![trigger k.left.contains(w)]
        k.left.contains(w) && !s.g[k.pivot as int].contains(w) implies (exists|j: int|
        0 <= j < k.branches.len() && #[trigger] k.branches[j] == w) by {
        assert(k.branches.to_set().contains(w));
    }
    assert forall|j: int| 0 <= j < k.branches.len() implies k.left.contains(
        #[trigger] k.branches[j],
    ) by {
        assert(k.branches.to_set().contains(k.branches[j]));
    }
    if s.is_complete() {
        s.x.lemma_len0_is_empty();
        lemma_one_branch(s.g, s.p, k.pivot, k.branches);
    }
    assert(is_split(s.g, s.r, s.p, s.x, Seq::empty(), k.left, k.gone)) by {
        reveal(is_split);
        assert forall|k: Set<usize>| !Seq::<Set<usize>>::empty().contains(k) by {}
    }
    assert(k.branches.take(0).to_set() =~= Set::<usize>::empty());
    assert(toll(s.g, s.sight(), Set::<usize>::empty()) == 0);
}

/// What the next branch of a step costs, and what lies below it.
proof fn lemma_next_branch(s: Step, k: Midway, v: usize)
    requires
        is_underway(s, k),
        k.at < k.branches.len(),
        v == k.branches[k.at],
    ensures
        s.fits(),
        k.left.contains(v),
        is_step(s.g, s.r, k.left, k.gone),
        is_step(
            s.g,
            s.r.insert(v),
            s.g[v as int].intersect(k.left),
            s.g[v as int].intersect(k.gone),
        ),
        cost_of(s.g[v as int], k.left) <= cost_of(s.g[v as int], s.sight()),
        cost_of(s.g[v as int], k.gone) <= cost_of(s.g[v as int], s.sight()),
        cost_of(s.g[v as int], k.left) + cost_of(s.g[v as int], k.gone) <= s.p.len() + s.x.len(),
        s.p.len() + s.x.len() <= s.g.len(),
        toll(s.g, s.sight(), k.branches.take(k.at + 1).to_set()) == toll(
            s.g,
            s.sight(),
            k.branches.take(k.at).to_set(),
        ) + cost_of(s.g[v as int], s.sight()),
        toll(s.g, s.sight(), k.branches.take(k.at + 1).to_set()) <= toll(
            s.g,
            s.sight(),
            s.sight(),
        ),
{
    reveal(is_underway);
    lemma_child_step(s.g, s.r, k.left, k.gone, v);
    lemma_own_bill(s.g, s.r, s.p, s.x);
    lemma_toll_next(s.g, s.sight(), k.branches, k.at);
    lemma_toll_part(s.g, s.sight(), k.branches, k.at + 1);
    lemma_toll_grows(s.g, s.sight(), k.branches.to_set(), s.sight());
    assert forall|w: usize| #[trigger] s.sight().contains(w) implies w < s.g.len() by {
        if s.p.contains(w) {
            assert(extends(s.g, s.r, w));
        } else {
            assert(s.x.contains(w));
            assert(extends(s.g, s.r, w));
        }
    }
    lemma_bounded_len(s.sight(), s.g.len());
}

/// A step that cannot pay for a branch was given too little.
proof fn lemma_unpaid_branch(s: Step, k: Midway, v: usize)
    requires
        is_underway(s, k),
        k.at < k.branches.len(),
        v == k.branches[k.at],
        k.budget < cost_of(s.g[v as int], k.left) + cost_of(s.g[v as int], k.gone),
    ensures
        is_answer(s, k.now, k.budget, Some(Halt::Budget)),
{
    lemma_next_branch(s, k, v);
    lemma_own_bill(s.g, s.r, s.p, s.x);
    reveal(is_underway);
    let q = s.p.len();
    let m = q + s.x.len();
    let c = step_cost(m);
    lemma_split_found(s.g, s.r, s.p, s.x, added_since(s.start, k.now), k.left, k.gone);
    assert(accounts_for(s.g, s.sight(), k.steps, s.before, k.budget, Some(Halt::Budget)));
    lemma_spent_within(s, k);
    lemma_own_cost(m, q, (k.at + 1) as nat);
    assert(k.at * m + m == (k.at + 1) * m) by (nonlinear_arith);
    if s.is_complete() {
        assert(k.at == 0);
        lemma_complete_branch(q);
    }
}

/// What a complete step spends on its pivot and its branch leaves enough for what lies
/// below.
proof fn lemma_complete_branch(q: nat)
    requires
        q > 0,
    ensures
        1 + 2 * q + q + complete_work((q - 1) as nat) <= complete_work(q),
        complete_work((q - 1) as nat) >= 1,
{
    lemma_complete_work_grows((q - 1) as nat);
}

/// The first branches of a step leave room for one more step's cost.
proof fn lemma_spent_within(s: Step, k: Midway)
    requires
        is_underway(s, k),
    ensures
        step_cost(s.p.len() + s.x.len()) * (pow2(s.p.len()) - pow2((s.p.len() - k.at) as nat))
            + step_cost(s.p.len() + s.x.len()) <= work(s.p.len(), s.p.len() + s.x.len()),
        pow2((s.p.len() - k.at) as nat) >= 1,
        pow2((s.p.len() - k.at) as nat) <= pow2(s.p.len()),
{
    reveal(is_underway);
    let q = s.p.len();
    let c = step_cost(q + s.x.len());
    let rest = pow2((q - k.at) as nat);
    vstd::arithmetic::power2::lemma_pow2_pos((q - k.at) as nat);
    if k.at > 0 {
        vstd::arithmetic::power2::lemma_pow2_strictly_increases((q - k.at) as nat, q);
    }
    assert(c * (pow2(q) - rest) + c <= c * pow2(q)) by (nonlinear_arith)
        requires
            1 <= rest,
    ;
}

/// What one more branch adds to the cliques at hand and to the steps taken.
proof fn lemma_branch_counts(
    s: Step,
    k: Midway,
    v: usize,
    paid: int,
    end: Seq<HashSet<usize>>,
    after: int,
    halted: Option<Halt>,
) -> (steps: Seq<Set<usize>>)
    requires
        is_underway(s, k),
        k.at < k.branches.len(),
        v == k.branches[k.at],
        paid == k.budget - cost_of(s.g[v as int], k.left) - cost_of(s.g[v as int], k.gone),
        is_prefix(k.now, end),
        is_answer(s.below(k.left, k.gone, v, k.now, paid), end, after, halted),
    ensures
        is_prefix(s.start, end),
        added_since(s.start, end).no_duplicates(),
        forall|c: Set<usize>| #[trigger]
            added_since(s.start, end).contains(c) ==> s.answers_for(c),
        are_steps(s.g, s.r, s.p, steps),
        forall|i: int|
            0 <= i < steps.len() ==> #[trigger] steps[i] == s.r || !steps[i].subset_of(
                s.r.union(k.left.remove(v)),
            ),
        halted == Some(Halt::Budget) ==> s.before < bill(s.g, s.sight(), steps) - bill(
            s.g,
            s.sight(),
            seq![s.r],
        ) + 1 + s.p.len() + toll(s.g, s.sight(), s.sight()) + 2 * toll(
            s.g,
            s.sight(),
            k.branches.take(k.at + 1).to_set(),
        ),
        halted != Some(Halt::Budget) ==> s.before - after <= bill(s.g, s.sight(), steps) - bill(
            s.g,
            s.sight(),
            seq![s.r],
        ) + 1 + s.p.len() + toll(s.g, s.sight(), s.sight()) + 2 * toll(
            s.g,
            s.sight(),
            k.branches.take(k.at + 1).to_set(),
        ),
{
    lemma_next_branch(s, k, v);
    reveal(is_underway);
    let b = s.below(k.left, k.gone, v, k.now, paid);
    let w = s.sight();
    lemma_added_in_turn(s.start, k.now, end);
    let earlier = added_since(s.start, k.now);
    let child = added_since(k.now, end);
    assert forall|c: Set<usize>| #[trigger] child.contains(c) implies is_target(
        s.g,
        s.r.insert(v),
        s.g[v as int].intersect(k.left),
        s.g[v as int].intersect(k.gone),
        c,
    ) by {
        assert(b.answers_for(c));
    }
    lemma_split_child(s.g, s.r, s.p, s.x, k.left, k.gone, v, earlier, child);
    let deeper = choose|deeper: Seq<Set<usize>>| #[trigger]
        are_steps(b.g, b.r, b.p, deeper) && accounts_for(
            b.g,
            b.sight(),
            deeper,
            b.before,
            after,
            halted,
        );
    if s.r.contains(v) {
        assert(extends(s.g, s.r, v));
        assert(s.g[v as int].contains(v));
    }
    lemma_more_steps(s.g, s.r, s.p, k.left, v, b.p, k.steps, deeper);
    assert(b.sight().subset_of(w)) by {
        assert(k.left.union(k.gone) == w);
    }
    lemma_bill_grows(s.g, b.sight(), w, deeper);
    lemma_bill_joined(s.g, w, k.steps, deeper);
    let steps = k.steps + deeper;
    assert forall|i: int| 0 <= i < steps.len() implies #[trigger] steps[i] == s.r
        || !steps[i].subset_of(s.r.union(k.left.remove(v))) by {
        if steps[i].subset_of(s.r.union(k.left.remove(v))) {
            assert(steps[i].subset_of(s.r.union(k.left)));
            if steps[i].contains(v) {
                assert(s.r.union(k.left.remove(v)).contains(v));
            }
        }
    }
    steps
}

/// A branch of a complete step is complete.
proof fn lemma_complete_below(s: Step, k: Midway, v: usize, paid: int)
    requires
        is_underway(s, k),
        k.at < k.branches.len(),
        v == k.branches[k.at],
        s.is_complete(),
    ensures
        k.at == 0,
        s.below(k.left, k.gone, v, k.now, paid).is_complete(),
        s.below(k.left, k.gone, v, k.now, paid).p.len() == s.p.len() - 1,
{
    reveal(is_underway);
    let b = s.below(k.left, k.gone, v, k.now, paid);
    k.gone.lemma_len0_is_empty();
    assert(b.x =~= Set::<usize>::empty());
    assert forall|u: usize, w: usize| #[trigger]
        b.p.contains(u) && #[trigger] b.p.contains(w) && u != w implies s.g[u as int].contains(
        w,
    ) by {
        assert(s.p.contains(u) && s.p.contains(w));
    }
    assert(k.left.contains(v));
    assert(extends(s.g, s.r, v));
    assert(b.p =~= s.p.remove(v)) by {
        assert forall|u: usize| s.p.contains(u) && u != v implies s.g[v as int].contains(u) by {}
    }
}

/// What can lie below a branch is at most half of what is left.
proof fn lemma_half_below(s: Step, k: Midway, v: usize, paid: int)
    requires
        is_underway(s, k),
        k.at < k.branches.len(),
        v == k.branches[k.at],
    ensures
        ({
            let b = s.below(k.left, k.gone, v, k.now, paid);
            let q = s.p.len();
            let half = pow2((q - k.at - 1) as nat);
            let c = step_cost(q + s.x.len());
            &&& work(b.p.len(), b.p.len() + b.x.len()) <= c * half
            &&& pow2(b.p.len()) <= half
            &&& pow2((q - k.at) as nat) == 2 * half
            &&& half >= 1
            &&& 2 * half <= pow2(q)
            &&& c * (pow2(q) - 2 * half) + c * half == c * (pow2(q) - half)
            &&& c * (pow2(q) - half) + c <= work(q, q + s.x.len())
        }),
{
    lemma_next_branch(s, k, v);
    lemma_spent_within(s, k);
    reveal(is_underway);
    let b = s.below(k.left, k.gone, v, k.now, paid);
    let q = s.p.len();
    let m = q + s.x.len();
    let half = pow2((q - k.at - 1) as nat);
    let c = step_cost(m);
    lemma_child_step(s.g, s.r, k.left, k.gone, v);
    vstd::arithmetic::power2::lemma_pow2_unfold((q - k.at) as nat);
    lemma_work_grows(b.p.len(), b.p.len() + b.x.len(), (q - k.at - 1) as nat, m);
    vstd::arithmetic::power2::lemma_pow2_pos((q - k.at - 1) as nat);
    assert(c * (pow2(q) - 2 * half) + c * half == c * (pow2(q) - half)) by (nonlinear_arith);
    assert(c * (pow2(q) - half) + c <= c * pow2(q)) by (nonlinear_arith)
        requires
            1 <= half,
    ;
}

/// A halt below a branch halts the step.
proof fn lemma_halted_below(
    s: Step,
    k: Midway,
    v: usize,
    paid: int,
    end: Seq<HashSet<usize>>,
    after: int,
    reason: Halt,
)
    requires
        is_underway(s, k),
        k.at < k.branches.len(),
        v == k.branches[k.at],
        paid == k.budget - cost_of(s.g[v as int], k.left) - cost_of(s.g[v as int], k.gone),
        is_prefix(k.now, end),
        is_answer(s.below(k.left, k.gone, v, k.now, paid), end, after, Some(reason)),
    ensures
        is_answer(s, end, after, Some(reason)),
{
    let steps = lemma_branch_counts(s, k, v, paid, end, after, Some(reason));
    lemma_next_branch(s, k, v);
    lemma_half_below(s, k, v, paid);
    lemma_own_bill(s.g, s.r, s.p, s.x);
    if s.is_complete() {
        lemma_complete_below(s, k, v, paid);
        lemma_complete_branch(s.p.len());
    }
    reveal(is_underway);
    let q = s.p.len();
    let m = q + s.x.len();
    let c = step_cost(m);
    let half = pow2((q - k.at - 1) as nat);
    assert(accounts_for(s.g, s.sight(), steps, s.before, after, Some(reason)));
    lemma_own_cost(m, q, (k.at + 1) as nat);
    assert(k.at * m + m == (k.at + 1) * m) by (nonlinear_arith);
    assert(c * (pow2(q) - pow2((q - k.at) as nat)) == c * (pow2(q) - 2 * half));
    assert(added_since(s.start, k.now).len() == k.now.len() - s.start.len());
}

/// A branch that was searched to its end leaves the rest.
proof fn lemma_branch_done(
    s: Step,
    k: Midway,
    v: usize,
    paid: int,
    end: Seq<HashSet<usize>>,
    after: int,
) -> (next: Midway)
    requires
        is_underway(s, k),
        k.at < k.branches.len(),
        v == k.branches[k.at],
        paid == k.budget - cost_of(s.g[v as int], k.left) - cost_of(s.g[v as int], k.gone),
        is_prefix(k.now, end),
        is_answer(s.below(k.left, k.gone, v, k.now, paid), end, after, None),
    ensures
        is_underway(s, next),
        next.pivot == k.pivot,
        next.branches == k.branches,
        next.at == k.at + 1,
        next.left == k.left.remove(v),
        next.gone == k.gone.insert(v),
        next.now == end,
        next.budget == after,
{
    let steps = lemma_branch_counts(s, k, v, paid, end, after, None);
    let next = Midway {
        pivot: k.pivot,
        branches: k.branches,
        at: k.at + 1,
        left: k.left.remove(v),
        gone: k.gone.insert(v),
        now: end,
        budget: after,
        steps,
    };
    lemma_next_branch(s, k, v);
    lemma_half_below(s, k, v, paid);
    if s.is_complete() {
        lemma_complete_below(s, k, v, paid);
        lemma_complete_branch(s.p.len());
    }
    reveal(is_underway);
    let b = s.below(k.left, k.gone, v, k.now, paid);
    let q = s.p.len();
    let m = q + s.x.len();
    let c = step_cost(m);
    let half = pow2((q - k.at - 1) as nat);
    let child = added_since(k.now, end);
    lemma_added_in_turn(s.start, k.now, end);
    assert forall|c: Set<usize>|
        #![trigger child.contains(c)]
        #![trigger is_target(
            s.g,
            s.r.insert(v),
            s.g[v as int].intersect(k.left),
            s.g[v as int].intersect(k.gone),
            c,
        )]
        child.contains(c) <==> is_target(
            s.g,
            s.r.insert(v),
            s.g[v as int].intersect(k.left),
            s.g[v as int].intersect(k.gone),
            c,
        ) by {
        assert(child.contains(c) ==> b.answers_for(c));
        assert(b.answers_for(c) ==> child.contains(c));
    }
    lemma_split_next(s.g, s.r, s.p, s.x, k.left, k.gone, v, added_since(s.start, k.now), child);
    assert(!k.gone.contains(v));
    assert forall|w: usize| #[trigger] next.gone.contains(w) implies extends(s.g, s.r, w) by {}
    assert(next.left.union(next.gone) =~= s.sight()) by {
        assert(k.left.union(k.gone) == s.sight());
    }
    assert forall|j: int| next.at <= j < k.branches.len() implies next.left.contains(
        #[trigger] k.branches[j],
    ) by {
        assert(k.left.contains(k.branches[j]));
        assert(k.branches[j] != k.branches[k.at]);
    }
    assert forall|w: usize|
        #![trigger next.left.contains(w)]
        next.left.contains(w) && !s.g[k.pivot as int].contains(w) implies exists|j: int|
        next.at <= j < k.branches.len() && #[trigger] k.branches[j] == w by {
        assert(k.left.contains(w));
        let j = choose|j: int| k.at <= j < k.branches.len() && #[trigger] k.branches[j] == w;
        assert(j != k.at);
        assert(k.branches[j] == w);
    }
    assert(k.at * m + m == (k.at + 1) * m) by (nonlinear_arith);
    assert(c * (pow2(q) - pow2((q - k.at) as nat)) == c * (pow2(q) - 2 * half));
    assert((q - next.at) as nat == (q - k.at - 1) as nat);
    next
}

/// A step whose branches were all searched to their ends has found what it answers for.
proof fn lemma_all_branches_done(s: Step, k: Midway)
    requires
        is_underway(s, k),
        k.at == k.branches.len(),
    ensures
        is_answer(s, k.now, k.budget, None),
{
    lemma_spent_within(s, k);
    reveal(is_underway);
    lemma_own_bill(s.g, s.r, s.p, s.x);
    let q = s.p.len();
    let m = q + s.x.len();
    lemma_split_found(s.g, s.r, s.p, s.x, added_since(s.start, k.now), k.left, k.gone);
    assert forall|w: usize| #[trigger] k.left.contains(w) implies s.g[k.pivot as int].contains(
        w,
    ) by {}
    assert forall|c: Set<usize>| #[trigger] s.answers_for(c) implies added_since(
        s.start,
        k.now,
    ).contains(c) by {
        lemma_pivot(s.g, s.r, k.left, k.gone, k.pivot, c);
    }
    lemma_toll_part(s.g, s.sight(), k.branches, k.at);
    lemma_toll_grows(s.g, s.sight(), k.branches.to_set(), s.sight());
    assert(accounts_for(s.g, s.sight(), k.steps, s.before, k.budget, None));
    lemma_own_cost(m, q, k.at as nat);
    if s.is_complete() {
        lemma_complete_work_grows(q);
    }
    assert(added_since(s.start, k.now).len() == k.now.len() - s.start.len());
}

/// Bron-Kerbosch with Tomita pivoting.
///
/// `r` is the clique built so far, `p` the candidates that could still extend
/// it, and `x` the candidates already used as an extension higher in the tree.
/// A clique is maximal exactly when nothing can extend it (`p` empty) and nothing
/// was excluded from it (`x` empty). Every maximal clique holds the pivot or one of
/// its non-neighbours, so only those are branched on.
///
/// Whatever the sets, cliques are only added, each holds all of `r` and is drawn from
/// `r` and `p` alone, and a search that was halted before does nothing. Where the sets
/// are those of a step in a graph, a search that is not halted adds each clique it
/// answers for exactly once, and one that ran out of budget had been at so many
/// different cliques that the steps at them cost more than it was given.
pub fn bron_kerbosch<F: Fn() -> bool>(
    r: HashSet<usize>,
    p: HashSet<usize>,
    x: HashSet<usize>,
    search: &mut Search,
    stop: &F,
)
    requires
        old(search).halted is None ==> stop.requires(()),
        forall|v: usize| #[trigger] p@.contains(v) ==> v < old(search).adjacency@.len(),
        forall|v: usize| #[trigger] x@.contains(v) ==> v < old(search).adjacency@.len(),
    ensures
        final(search).same_search(old(search)),
        is_prefix(old(search).cliques@, final(search).cliques@),
        final(search).budget <= old(search).budget,
        forall|k: Set<usize>| #[trigger]
            added_since(old(search).cliques@, final(search).cliques@).contains(k) ==> r@.subset_of(
                k,
            ) && k.subset_of(r@.union(p@)),
        old(search).halted is Some ==> final(search).halted == old(search).halted
            && final(search).cliques@ == old(search).cliques@ && final(search).budget == old(
            search,
        ).budget,
        old(search).halted is None ==> match final(search).halted {
            None => {
                &&& stop.ensures((), false)
                &&& final(search).cliques@.len() <= old(search).ceilings.groups + 1
                &&& final(search).cliques@.len() - old(search).cliques@.len() <= old(search).budget
                    - final(search).budget
            },
            Some(Halt::Budget) => stop.ensures((), false),
            Some(Halt::Groups) => {
                &&& stop.ensures((), false)
                &&& final(search).cliques@.len() > old(search).ceilings.groups
                &&& old(search).cliques@.len() <= old(search).ceilings.groups + 1
                    ==> final(search).cliques@.len() == old(search).ceilings.groups + 1
            },
            Some(Halt::Interrupted) => stop.ensures((), true),
        },
        old(search).halted is None && p@.len() == 0 ==> match final(search).halted {
            None => final(search).budget == old(search).budget - 1,
            Some(Halt::Budget) => old(search).budget == 0,
            Some(_) => final(search).budget == old(search).budget,
        },
        old(search).halted is None && is_graph(old(search).graph()) && is_step(
            old(search).graph(),
            r@,
            p@,
            x@,
        ) ==> is_answer(
            (Step {
                g: old(search).graph(),
                r: r@,
                p: p@,
                x: x@,
                start: old(search).cliques@,
                before: old(search).budget as int,
                groups: old(search).ceilings.groups as int,
            }),
            final(search).cliques@,
            final(search).budget as int,
            final(search).halted,
        ),
    decreases old(search).budget,
{
    let ghost g = search.graph();
    let ghost start = search.cliques@;
    let ghost s = Step {
        g,
        r: r@,
        p: p@,
        x: x@,
        start,
        before: search.budget as int,
        groups: search.ceilings.groups as int,
    };
    let mut left = p;
    let mut gone = x;
    proof {
        lemma_nothing_added(start);
    }
    if !search.may_continue(stop) {
        proof {
            if old(search).halted is None && s.fits() {
                lemma_not_begun(s, search.halted->0);
            }
        }
        return;
    }
    if !search.spend(1) {
        proof {
            if s.fits() {
                lemma_unpaid_pivot(s, search.budget as int);
            }
        }
        return;
    }
    if left.len() == 0 {
        if gone.is_empty() && r.len() > 1 {
            let ghost clique = r@;
            search.cliques.push(r);
            proof {
                assert(found(search.cliques@) =~= found(start).push(clique));
                assert(added_since(start, search.cliques@) =~= seq![clique]);
                assert(found(start).push(clique).take(start.len() as int) =~= found(start));
            }
        }
        proof {
            if s.fits() {
                s.p.lemma_len0_is_empty();
                lemma_leaf_answers(s, search.cliques@);
            }
        }
        return;
    }
    let adjacency = search.adjacency;
    let picked = choose_pivot(&left, &gone, adjacency, search);
    let pivot = match picked {
        Some(v) => v,
        None => {
            proof {
                if s.fits() {
                    lemma_unpaid_pivot(s, search.budget as int);
                }
            }
            return;
        },
    };
    if !search.spend(left.len()) {
        proof {
            if s.fits() {
                lemma_unpaid_pivot(s, search.budget as int);
            }
        }
        return;
    }
    assert(adjacency@[pivot as int]@ == g[pivot as int]);
    let branches = difference(&left, &adjacency[pivot]);
    let ghost mut k = Midway {
        pivot,
        branches: branches@,
        at: 0,
        left: left@,
        gone: gone@,
        now: start,
        budget: search.budget as int,
        steps: seq![r@],
    };
    proof {
        if s.fits() {
            lemma_underway_begins(s, k);
        }
        assert forall|j: int| 0 <= j < branches@.len() implies s.p.contains(
            #[trigger] branches@[j],
        ) by {
            assert(branches@.to_set().contains(branches@[j]));
        }
    }
    let mut at: usize = 0;
    while at < branches.len()
        invariant
            stop.requires(()),
            g == graph_of(adjacency@),
            g == search.graph(),
            adjacency@ == search.adjacency@,
            search.same_search(old(search)),
            search.halted is None,
            old(search).halted is None,
            search.budget < old(search).budget,
            s.p.len() > 0,
            stop.ensures((), false),
            start == old(search).cliques@,
            s.g == g,
            s.r == r@,
            s.p == p@,
            s.x == x@,
            s.start == start,
            s.before == old(search).budget,
            s.groups == old(search).ceilings.groups,
            at <= branches@.len(),
            forall|j: int| 0 <= j < branches@.len() ==> s.p.contains(#[trigger] branches@[j]),
            forall|v: usize| #[trigger] s.p.contains(v) ==> v < adjacency@.len(),
            forall|v: usize| #[trigger] left@.contains(v) ==> s.p.contains(v),
            forall|v: usize| #[trigger] gone@.contains(v) ==> v < adjacency@.len(),
            is_prefix(start, search.cliques@),
            search.cliques@.len() <= old(search).ceilings.groups + 1,
            search.cliques@.len() - start.len() <= old(search).budget - search.budget,
            forall|c: Set<usize>| #[trigger]
                added_since(start, search.cliques@).contains(c) ==> s.r.subset_of(c)
                    && c.subset_of(s.r.union(s.p)),
            k.branches == branches@,
            k.at == at,
            k.left == left@,
            k.gone == gone@,
            k.now == search.cliques@,
            k.budget == search.budget,
            s.fits() ==> is_underway(s, k),
        decreases branches@.len() - at,
    {
        let v = branches[at];
        let ghost before = search.cliques@;
        assert(s.p.contains(branches@[at as int]));
        assert(adjacency@[v as int]@ == g[v as int]);
        let neighbours = &adjacency[v];
        let cost_p = intersection_cost(neighbours, &left);
        let cost_x = intersection_cost(neighbours, &gone);
        proof {
            assert(adjacency@.len() <= usize::MAX) by {
                assert(adjacency.len() == adjacency@.len());
            }
            if s.fits() {
                lemma_next_branch(s, k, v);
            }
        }
        if !search.spend(cost_p.saturating_add(cost_x)) {
            proof {
                if s.fits() {
                    lemma_unpaid_branch(s, k, v);
                }
            }
            return;
        }
        let ghost paid = search.budget as int;
        let mut next_r = duplicate(&r);
        next_r.insert(v);
        let next_p = intersection(neighbours, &left);
        let next_x = intersection(neighbours, &gone);
        let ghost child_r = next_r@;
        let ghost child_p = next_p@;
        bron_kerbosch(next_r, next_p, next_x, search, stop);
        proof {
            lemma_added_in_turn(start, before, search.cliques@);
            let earlier = added_since(start, before);
            let child = added_since(before, search.cliques@);
            assert forall|c: Set<usize>| #[trigger]
                added_since(start, search.cliques@).contains(c) implies s.r.subset_of(c)
                && c.subset_of(s.r.union(s.p)) by {
                let i = choose|i: int|
                    0 <= i < (earlier + child).len() && (earlier + child)[i] == c;
                if i < earlier.len() {
                    assert(earlier.contains(c));
                } else {
                    assert(child[i - earlier.len()] == c);
                    assert(child.contains(c));
                    assert(child_r.subset_of(c) && c.subset_of(child_r.union(child_p)));
                }
            }
            if s.fits() {
                assert(is_answer(
                    s.below(k.left, k.gone, v, before, paid),
                    search.cliques@,
                    search.budget as int,
                    search.halted,
                ));
            }
        }
        if search.halted.is_some() {
            proof {
                if s.fits() {
                    lemma_halted_below(
                        s,
                        k,
                        v,
                        paid,
                        search.cliques@,
                        search.budget as int,
                        search.halted->0,
                    );
                }
            }
            return;
        }
        proof {
            if s.fits() {
                k = lemma_branch_done(s, k, v, paid, search.cliques@, search.budget as int);
            } else {
                k = Midway {
                    pivot: k.pivot,
                    branches: k.branches,
                    at: k.at + 1,
                    left: k.left.remove(v),
                    gone: k.gone.insert(v),
                    now: search.cliques@,
                    budget: search.budget as int,
                    steps: k.steps,
                };
            }
        }
        left.remove(&v);
        gone.insert(v);
        at = at + 1;
    }
    proof {
        if s.fits() {
            lemma_all_branches_done(s, k);
        }
    }
}

} // verus!
