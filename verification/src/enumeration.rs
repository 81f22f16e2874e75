//! Searching a graph one connected component at a time.

use crate::cliques::{
    accounts_for, added_since, are_steps, bill, bron_kerbosch, complete_work, extends, found,
    graph_of, is_answer, is_clique, is_graph, is_maximal_clique, is_maximal_in, is_step, is_target,
    lemma_bounded_len, work, Ceilings, Halt, Search, Step,
};
use crate::sets::{collected, members};
use std::collections::HashSet;
use vstd::arithmetic::power2::pow2;
use vstd::prelude::*;

verus! {

broadcast use vstd::std_specs::hash::group_hash_axioms;

/// A way through the graph, one link at a time.
pub open spec fn is_walk(g: Seq<Set<usize>>, w: Seq<usize>) -> bool {
    &&& w.len() > 0
    &&& forall|i: int| 0 <= i < w.len() ==> #[trigger] w[i] < g.len()
    &&& forall|i: int, j: int|
        0 <= i < w.len() && j == i + 1 && j < w.len() ==> (#[trigger] g[w[i] as int]).contains(
            #[trigger] w[j],
        )
}

/// Can `v` be reached from `u`?
pub open spec fn reaches(g: Seq<Set<usize>>, u: usize, v: usize) -> bool {
    exists|w: Seq<usize>| #[trigger] is_walk(g, w) && w[0] == u && w.last() == v
}

/// No link leaves the set.
pub open spec fn is_closed(g: Seq<Set<usize>>, c: Set<usize>) -> bool {
    forall|u: usize, v: usize|
        #![trigger c.contains(u), g[u as int].contains(v)]
        c.contains(u) && g[u as int].contains(v) ==> c.contains(v)
}

/// A connected component: a closed set of linked vertices that can all be reached
/// from one of its own.
pub open spec fn is_component(g: Seq<Set<usize>>, c: Seq<usize>) -> bool {
    &&& c.len() > 0
    &&& c.no_duplicates()
    &&& forall|i: int| 0 <= i < c.len() ==> #[trigger] c[i] < g.len()
    &&& forall|i: int| 0 <= i < c.len() ==> !g[#[trigger] c[i] as int].is_empty()
    &&& is_closed(g, c.to_set())
    &&& forall|i: int| 0 <= i < c.len() ==> reaches(g, c[0], #[trigger] c[i])
}

proof fn lemma_reach_self(g: Seq<Set<usize>>, u: usize)
    requires
        u < g.len(),
    ensures
        reaches(g, u, u),
{
    let w = seq![u];
    assert(is_walk(g, w));
    assert(w[0] == u && w.last() == u);
}

proof fn lemma_reach_further(g: Seq<Set<usize>>, u: usize, v: usize, next: usize)
    requires
        reaches(g, u, v),
        v < g.len(),
        g[v as int].contains(next),
        next < g.len(),
    ensures
        reaches(g, u, next),
{
    let w = choose|w: Seq<usize>| #[trigger] is_walk(g, w) && w[0] == u && w.last() == v;
    let longer = w.push(next);
    assert forall|i: int, j: int|
        0 <= i < longer.len() && j == i + 1 && j < longer.len() implies (
    #[trigger] g[longer[i] as int]).contains(#[trigger] longer[j]) by {
        if j < w.len() {
            assert(g[w[i] as int].contains(w[j]));
        } else {
            assert(longer[i] == w.last());
        }
    }
    assert(is_walk(g, longer));
    assert(longer[0] == u && longer.last() == next);
}

/// A list of different numbers below `n` has at most `n` of them.
pub proof fn lemma_distinct_len(c: Seq<usize>, n: nat)
    requires
        c.no_duplicates(),
        forall|i: int| 0 <= i < c.len() ==> #[trigger] c[i] < n,
    ensures
        c.len() <= n,
{
    c.unique_seq_to_set();
    vstd::seq_lib::seq_to_set_is_finite(c);
    lemma_bounded_len(c.to_set(), n);
}

/// The vertices already placed in a component.
pub open spec fn placed(list: Seq<Vec<usize>>, v: usize) -> bool {
    exists|k: int| 0 <= k < list.len() && (#[trigger] list[k])@.contains(v)
}

/// The linked vertices, split into connected components.
///
/// A maximal clique lies inside one component, so searching each one separately
/// finds the same cliques as one search over the whole graph, and makes the
/// ceilings local to it. Isolated vertices are left out: a vertex with no link is
/// in no group.
pub fn components(adjacency: &[HashSet<usize>]) -> (out: Vec<Vec<usize>>)
    requires
        is_graph(graph_of(adjacency@)),
    ensures
        forall|k: int| 0 <= k < out@.len() ==> is_component(graph_of(adjacency@), #[trigger] out@[k]@),
        forall|k: int, l: int|
            0 <= k < l < out@.len() ==> (#[trigger] out@[k])@.to_set().disjoint(
                (#[trigger] out@[l])@.to_set(),
            ),
        forall|v: usize| #[trigger]
            placed(out@, v) <==> v < adjacency@.len() && !adjacency@[v as int]@.is_empty(),
        forall|k: int, j: int|
            0 <= k < out@.len() && 0 <= j < out@[k]@.len() ==> out@[k]@[0]
                <= #[trigger] out@[k]@[j],
        forall|k: int, l: int|
            0 <= k < l < out@.len() ==> (#[trigger] out@[k])@[0] < (#[trigger] out@[l])@[0],
{
    let ghost g = graph_of(adjacency@);
    let n = adjacency.len();
    let mut seen: Vec<bool> = Vec::new();
    for i in 0..n
        invariant
            n == adjacency@.len(),
            seen@.len() == i,
            forall|j: int| 0 <= j < i ==> !#[trigger] seen@[j],
    {
        seen.push(false);
    }
    let mut out: Vec<Vec<usize>> = Vec::new();
    for v in 0..n
        invariant
            g == graph_of(adjacency@),
            is_graph(g),
            n == adjacency@.len(),
            seen@.len() == n,
            forall|u: usize| u < n ==> (#[trigger] seen@[u as int] <==> placed(out@, u)),
            forall|k: int| 0 <= k < out@.len() ==> is_component(g, #[trigger] out@[k]@),
            forall|k: int, l: int|
                0 <= k < l < out@.len() ==> (#[trigger] out@[k])@.to_set().disjoint(
                    (#[trigger] out@[l])@.to_set(),
                ),
            forall|u: usize| #[trigger]
                placed(out@, u) ==> u < n && !adjacency@[u as int]@.is_empty(),
            forall|u: usize|
                u < v && !adjacency@[u as int]@.is_empty() ==> #[trigger] placed(out@, u),
            forall|k: int, j: int|
                0 <= k < out@.len() && 0 <= j < out@[k]@.len() ==> out@[k]@[0]
                    <= #[trigger] out@[k]@[j],
            forall|k: int, l: int|
                0 <= k < l < out@.len() ==> (#[trigger] out@[k])@[0] < (#[trigger] out@[l])@[0],
            forall|k: int| 0 <= k < out@.len() ==> (#[trigger] out@[k])@[0] < v,
    {
        if !seen[v] && !adjacency[v].is_empty() {
            let ghost before = out@;
            let mut stack: Vec<usize> = Vec::new();
            stack.push(v);
            seen.set(v, true);
            let mut component: Vec<usize> = Vec::new();
            proof {
                lemma_reach_self(g, v);
                assert(g[v as int] == adjacency@[v as int]@);
                assert(stack@ =~= seq![v]);
                assert(stack@[0] == v);
                assert(stack@.contains(v));
                assert(!placed(before, v));
            }
            while stack.len() > 0
                invariant
                    g == graph_of(adjacency@),
                    is_graph(g),
                    n == adjacency@.len(),
                    v < n,
                    seen@.len() == n,
                    out@ == before,
                    forall|k: int| 0 <= k < out@.len() ==> is_component(g, #[trigger] out@[k]@),
                    forall|u: usize|
                        u < n ==> (#[trigger] seen@[u as int] <==> placed(before, u)
                            || component@.contains(u) || stack@.contains(u)),
                    !placed(before, v),
                    component@.no_duplicates(),
                    stack@.no_duplicates(),
                    forall|u: usize| #[trigger]
                        component@.contains(u) ==> !stack@.contains(u) && u < n && !placed(
                            before,
                            u,
                        ) && reaches(g, v, u) && !g[u as int].is_empty(),
                    forall|u: usize| #[trigger]
                        stack@.contains(u) ==> u < n && !placed(before, u) && reaches(g, v, u)
                            && !g[u as int].is_empty(),
                    forall|u: usize, w: usize|
                        #![trigger component@.contains(u), g[u as int].contains(w)]
                        component@.contains(u) && g[u as int].contains(w) ==> component@.contains(w)
                            || stack@.contains(w),
                    component@.len() == 0 ==> stack@ == seq![v],
                    component@.len() > 0 ==> component@[0] == v,
                decreases n - component@.len(),
            {
                let ghost stack0 = stack@;
                let ghost comp0 = component@;
                let u = stack[stack.len() - 1];
                stack.pop();
                assert(stack0 =~= stack@.push(u));
                assert(stack0.contains(u)) by {
                    assert(stack0[stack0.len() - 1] == u);
                }
                assert(!stack@.contains(u));
                assert(!component@.contains(u));
                component.push(u);
                assert(component@.contains(u)) by {
                    assert(component@[comp0.len() as int] == u);
                }
                assert forall|a: usize| #[trigger]
                    component@.contains(a) <==> comp0.contains(a) || a == u by {
                    if comp0.contains(a) {
                        let i = choose|i: int| 0 <= i < comp0.len() && comp0[i] == a;
                        assert(component@[i] == a);
                    }
                }
                assert forall|a: usize| #[trigger]
                    stack0.contains(a) <==> stack@.contains(a) || a == u by {
                    if stack@.contains(a) {
                        let i = choose|i: int| 0 <= i < stack@.len() && stack@[i] == a;
                        assert(stack0[i] == a);
                    }
                }
                proof {
                    assert forall|i: int| 0 <= i < component@.len() implies #[trigger] component@[i]
                        < n by {
                        assert(component@.contains(component@[i]));
                    }
                    lemma_distinct_len(component@, n as nat);
                    assert forall|a: usize| #[trigger] stack@.contains(a) implies a < n && !placed(
                        before,
                        a,
                    ) && reaches(g, v, a) && !g[a as int].is_empty() by {
                        assert(stack0.contains(a));
                    }
                }
                let near = members(&adjacency[u]);
                assert(g[u as int] == adjacency@[u as int]@);
                for i in 0..near.len()
                    invariant
                        g == graph_of(adjacency@),
                        is_graph(g),
                        n == adjacency@.len(),
                        u < n,
                        v < n,
                        seen@.len() == n,
                        out@ == before,
                        near@.to_set() == g[u as int],
                        near@.no_duplicates(),
                        reaches(g, v, u),
                        !placed(before, u),
                        component@.contains(u),
                        forall|k: int| 0 <= k < out@.len() ==> is_component(g, #[trigger] out@[k]@),
                        forall|a: usize|
                            a < n ==> (#[trigger] seen@[a as int] <==> placed(before, a)
                                || component@.contains(a) || stack@.contains(a)),
                        stack@.no_duplicates(),
                        forall|a: usize| #[trigger]
                            component@.contains(a) ==> !stack@.contains(a) && a < n && !placed(
                                before,
                                a,
                            ) && reaches(g, v, a) && !g[a as int].is_empty(),
                        forall|a: usize| #[trigger]
                            stack@.contains(a) ==> a < n && !placed(before, a) && reaches(g, v, a)
                                && !g[a as int].is_empty(),
                        forall|a: usize, w: usize|
                            #![trigger component@.contains(a), g[a as int].contains(w)]
                            component@.contains(a) && a != u && g[a as int].contains(w)
                                ==> component@.contains(w) || stack@.contains(w),
                        forall|j: int|
                            0 <= j < i ==> component@.contains(#[trigger] near@[j])
                                || stack@.contains(near@[j]),
                {
                    let w = near[i];
                    assert(near@.to_set().contains(near@[i as int]));
                    assert(g[u as int].contains(w));
                    assert(!placed(before, w)) by {
                        if placed(before, w) {
                            let k = choose|k: int|
                                0 <= k < before.len() && (#[trigger] before[k])@.contains(w);
                            assert(is_component(g, out@[k]@));
                            assert(before[k]@.to_set().contains(w));
                            assert(g[w as int].contains(u));
                            assert(before[k]@.to_set().contains(u));
                            assert(before[k]@.contains(u));
                        }
                    }
                    if !seen[w] {
                        let ghost stack1 = stack@;
                        seen.set(w, true);
                        stack.push(w);
                        proof {
                            lemma_reach_further(g, v, u, w);
                            assert(g[w as int].contains(u));
                            assert(stack@[stack1.len() as int] == w);
                            assert forall|a: usize| #[trigger]
                                stack@.contains(a) <==> stack1.contains(a) || a == w by {
                                if stack1.contains(a) {
                                    let j = choose|j: int|
                                        0 <= j < stack1.len() && stack1[j] == a;
                                    assert(stack@[j] == a);
                                }
                            }
                        }
                    }
                }
                assert forall|w: usize| #[trigger] g[u as int].contains(w) implies component@.contains(
                    w,
                ) || stack@.contains(w) by {
                    assert(near@.to_set().contains(w));
                    let j = choose|j: int| 0 <= j < near@.len() && near@[j] == w;
                    assert(component@.contains(near@[j]) || stack@.contains(near@[j]));
                }
            }
            proof {
                assert(component@.len() > 0);
                assert forall|i: int| 0 <= i < component@.len() implies #[trigger] component@[i]
                    < g.len() && reaches(g, v, component@[i]) && !g[component@[i] as int].is_empty() by {
                    assert(component@.contains(component@[i]));
                }
                assert forall|a: usize, w: usize|
                    #![trigger component@.to_set().contains(a), g[a as int].contains(w)]
                    component@.to_set().contains(a) && g[a as int].contains(w) implies component@.to_set().contains(
                    w,
                ) by {
                    assert(component@.contains(a));
                    assert(component@.contains(w));
                }
                assert(is_component(g, component@));
                assert forall|k: int| 0 <= k < before.len() implies (#[trigger] before[k])@.to_set().disjoint(
                    component@.to_set(),
                ) by {
                    assert forall|a: usize| !(before[k]@.to_set().contains(a)
                        && component@.to_set().contains(a)) by {
                        if before[k]@.contains(a) && component@.contains(a) {
                            assert(placed(before, a));
                        }
                    }
                }
            }
            let ghost list = component@;
            proof {
                assert forall|j: int| 0 <= j < list.len() implies list[0] <= #[trigger] list[j] by {
                    assert(list.contains(list[j]));
                    assert(g[list[j] as int] == adjacency@[list[j] as int]@);
                    if list[j] < v {
                        assert(placed(before, list[j]));
                    }
                }
            }
            out.push(component);
            proof {
                assert forall|k: int, j: int|
                    0 <= k < out@.len() && 0 <= j < out@[k]@.len() implies out@[k]@[0]
                    <= #[trigger] out@[k]@[j] by {
                    if k < before.len() {
                        assert(out@[k]@ == before[k]@);
                        assert(before[k]@[0] <= before[k]@[j]);
                    } else {
                        assert(list[0] <= list[j]);
                    }
                }
                assert(out@[before.len() as int]@ == list);
                assert forall|a: usize| #[trigger]
                    placed(out@, a) <==> placed(before, a) || list.contains(a) by {
                    if placed(before, a) {
                        let k = choose|k: int|
                            0 <= k < before.len() && (#[trigger] before[k])@.contains(a);
                        assert(out@[k]@.contains(a));
                    }
                    if placed(out@, a) {
                        let k = choose|k: int|
                            0 <= k < out@.len() && (#[trigger] out@[k])@.contains(a);
                        if k < before.len() {
                            assert(before[k]@.contains(a));
                        }
                    }
                }
                assert forall|a: usize| #[trigger] placed(out@, a) implies a < n
                    && !adjacency@[a as int]@.is_empty() by {
                    if list.contains(a) {
                        assert(g[a as int] == adjacency@[a as int]@);
                    }
                }
                assert(list.contains(v)) by {
                    assert(list[0] == v);
                }
            }
        }
    }
    out
}

/// A component whose groups are not reported, because its search was stopped.
pub struct Abandoned {
    pub component: Vec<usize>,
    pub reason: Halt,
    /// How many groups the search had found.
    pub found: usize,
}

/// What searching every component came to.
pub struct Enumeration {
    pub cliques: Vec<HashSet<usize>>,
    pub abandoned: Vec<Abandoned>,
    /// The run was interrupted, and the components after that were not searched.
    pub interrupted: bool,
}

/// Does `k` lie inside a component that was abandoned?
pub open spec fn is_dropped(abandoned: Seq<Abandoned>, k: Set<usize>) -> bool {
    exists|i: int|
        0 <= i < abandoned.len() && k.subset_of((#[trigger] abandoned[i]).component@.to_set())
}

/// Is some vertex linked to another?
pub open spec fn has_links(g: Seq<Set<usize>>) -> bool {
    exists|v: int| 0 <= v < g.len() && !(#[trigger] g[v]).is_empty()
}

/// Whether a request to stop was honoured, where there are links to search or not and
/// so many components were given up: only a request interrupts a search, and once the
/// answer can only be yes, nothing is searched to its end.
pub open spec fn is_honoured<F: Fn() -> bool>(
    stop: &F,
    linked: bool,
    given_up: nat,
    interrupted: bool,
) -> bool {
    &&& interrupted ==> linked && stop.ensures((), true)
    &&& !interrupted && linked ==> stop.ensures((), false)
    &&& given_up > 0 ==> stop.ensures((), false)
}

/// Is `c` one of the first `upto` lists?
spec fn is_among(list: Seq<Vec<usize>>, upto: int, c: Seq<usize>) -> bool {
    exists|j: int| 0 <= j < upto && (#[trigger] list[j])@ == c
}

/// Cliques inside a set, each at most once.
pub open spec fn are_cliques_in(g: Seq<Set<usize>>, c: Set<usize>, list: Seq<Set<usize>>) -> bool {
    &&& list.no_duplicates()
    &&& forall|i: int|
        0 <= i < list.len() ==> is_clique(g, #[trigger] list[i]) && list[i].subset_of(c)
}

/// A search of the component needed more than the budget: it was at different cliques
/// whose steps cost more than that.
pub open spec fn ran_out(g: Seq<Set<usize>>, budget: nat, c: Seq<usize>) -> bool {
    exists|list: Seq<Set<usize>>| #[trigger]
        are_cliques_in(g, c.to_set(), list) && budget < bill(g, c.to_set(), list)
}

/// A component is abandoned only when its search found more groups than can be reported,
/// or needed more than the budget: one with few cliques is not, nor a complete one whose
/// single path fits.
pub open spec fn was_refused(g: Seq<Set<usize>>, ceilings: Ceilings, a: Abandoned) -> bool {
    is_refusal(g, ceilings, a.component@, a.reason, a.found as nat)
}

/// Whether a search of a component was given up for that reason, with that many groups
/// found.
pub open spec fn is_refusal(
    g: Seq<Set<usize>>,
    ceilings: Ceilings,
    c: Seq<usize>,
    reason: Halt,
    count: nat,
) -> bool {
    &&& is_component(g, c)
    &&& exists|list: Seq<Set<usize>>| #[trigger]
        are_groups_in(g, c.to_set(), list) && list.len() == count
    &&& match reason {
        Halt::Budget => ceilings.budget < work(c.len(), c.len()) && ran_out(
            g,
            ceilings.budget as nat,
            c,
        ),
        Halt::Groups => count == ceilings.groups + 1 && ceilings.groups < pow2(c.len()),
        Halt::Interrupted => false,
    }
    &&& is_clique(g, c.to_set()) ==> match reason {
        Halt::Budget => ceilings.budget < complete_work(c.len()),
        Halt::Groups => ceilings.groups == 0,
        Halt::Interrupted => false,
    }
}

/// Groups inside a set: its maximal cliques of two or more, each at most once.
pub open spec fn are_groups_in(g: Seq<Set<usize>>, c: Set<usize>, list: Seq<Set<usize>>) -> bool {
    &&& list.no_duplicates()
    &&& forall|i: int|
        0 <= i < list.len() ==> is_maximal_clique(g, #[trigger] list[i]) && list[i].len() > 1
            && list[i].subset_of(c)
}

/// A component that was searched to its end has no more groups than can be reported,
/// nor than the budget pays for.
pub open spec fn is_within(g: Seq<Set<usize>>, ceilings: Ceilings, c: Set<usize>) -> bool {
    forall|list: Seq<Set<usize>>| #[trigger]
        are_groups_in(g, c, list) ==> list.len() <= ceilings.groups && list.len()
            <= ceilings.budget
}

/// What a search of a component finds are groups of it.
proof fn lemma_found_in(
    g: Seq<Set<usize>>,
    c: Seq<usize>,
    r: Set<usize>,
    p: Set<usize>,
    x: Set<usize>,
    added: Seq<Set<usize>>,
)
    requires
        is_graph(g),
        is_component(g, c),
        r == Set::<usize>::empty(),
        x == Set::<usize>::empty(),
        p == c.to_set(),
        added.no_duplicates(),
        forall|k: Set<usize>| #[trigger] added.contains(k) ==> is_target(g, r, p, x, k),
    ensures
        are_groups_in(g, c.to_set(), added),
{
    assert(r.union(p).union(x) =~= p);
    assert(r.union(p) =~= p);
    assert forall|u: usize| #[trigger] p.contains(u) implies u < g.len() by {
        assert(c.contains(u));
    }
    assert forall|i: int| 0 <= i < added.len() implies is_maximal_clique(g, #[trigger] added[i])
        && added[i].len() > 1 && added[i].subset_of(c.to_set()) by {
        assert(added.contains(added[i]));
        lemma_closed_maximal(g, p, added[i]);
    }
}

/// A list without repeats is no longer than one that holds all it does.
proof fn lemma_no_longer(list: Seq<Set<usize>>, all: Seq<Set<usize>>)
    requires
        list.no_duplicates(),
        all.no_duplicates(),
        forall|i: int| 0 <= i < list.len() ==> all.contains(#[trigger] list[i]),
    ensures
        list.len() <= all.len(),
{
    list.unique_seq_to_set();
    all.unique_seq_to_set();
    assert(list.to_set().subset_of(all.to_set()));
    vstd::set_lib::lemma_len_subset(list.to_set(), all.to_set());
}

/// A maximal clique of a closed set is a maximal clique of the graph.
proof fn lemma_closed_maximal(g: Seq<Set<usize>>, c: Set<usize>, k: Set<usize>)
    requires
        is_graph(g),
        is_closed(g, c),
        k.subset_of(c),
        k.len() > 0,
        forall|u: usize| #[trigger] c.contains(u) ==> u < g.len(),
    ensures
        is_maximal_in(g, c, k) <==> is_maximal_clique(g, k),
{
    if is_maximal_in(g, c, k) {
        let u = k.choose();
        assert(k.contains(u));
        assert forall|w: usize| !#[trigger] extends(g, k, w) by {
            if extends(g, k, w) {
                assert(g[w as int].contains(u));
                assert(g[u as int].contains(w));
                assert(c.contains(w));
            }
        }
    }
    if is_maximal_clique(g, k) {
        assert forall|w: usize| #[trigger] c.contains(w) implies !extends(g, k, w) by {}
    }
}

/// A walk with one end in a closed set has the other there too.
pub proof fn lemma_walk_stays(g: Seq<Set<usize>>, c: Set<usize>, w: Seq<usize>)
    requires
        is_graph(g),
        is_closed(g, c),
        is_walk(g, w),
    ensures
        c.contains(w[0]) <==> c.contains(w.last()),
    decreases w.len(),
{
    if w.len() > 1 {
        let n = (w.len() - 1) as int;
        let rest = w.take(n);
        assert forall|i: int, j: int|
            0 <= i < rest.len() && j == i + 1 && j < rest.len() implies (
        #[trigger] g[rest[i] as int]).contains(#[trigger] rest[j]) by {
            assert(g[w[i] as int].contains(w[j]));
        }
        lemma_walk_stays(g, c, rest);
        assert(g[w[n - 1] as int].contains(w[n]));
        assert(g[w[n] as int].contains(w[n - 1]));
    }
}

/// Two components with a member in common are one and the same.
pub proof fn lemma_one_component(g: Seq<Set<usize>>, a: Seq<usize>, b: Seq<usize>, v: usize)
    requires
        is_graph(g),
        is_component(g, a),
        is_component(g, b),
        a.contains(v),
        b.contains(v),
    ensures
        a.to_set() == b.to_set(),
{
    lemma_component_inside(g, a, b, v);
    lemma_component_inside(g, b, a, v);
    assert(a.to_set() =~= b.to_set());
}

proof fn lemma_component_inside(g: Seq<Set<usize>>, a: Seq<usize>, b: Seq<usize>, v: usize)
    requires
        is_graph(g),
        is_component(g, a),
        is_component(g, b),
        a.contains(v),
        b.contains(v),
    ensures
        a.to_set().subset_of(b.to_set()),
{
    let closed = b.to_set();
    let at = choose|i: int| 0 <= i < a.len() && a[i] == v;
    assert(reaches(g, a[0], a[at]));
    let first = choose|w: Seq<usize>| #[trigger]
        is_walk(g, w) && w[0] == a[0] && w.last() == a[at];
    lemma_walk_stays(g, closed, first);
    assert(closed.contains(a[0]));
    assert forall|u: usize| #[trigger] a.to_set().contains(u) implies closed.contains(u) by {
        let i = choose|i: int| 0 <= i < a.len() && a[i] == u;
        assert(reaches(g, a[0], a[i]));
        let w = choose|w: Seq<usize>| #[trigger]
            is_walk(g, w) && w[0] == a[0] && w.last() == a[i];
        lemma_walk_stays(g, closed, w);
    }
}

/// Every linked vertex is on one of the lists.
#[verifier::opaque]
spec fn are_all_placed(g: Seq<Set<usize>>, parts: Seq<Vec<usize>>) -> bool {
    forall|v: usize| v < g.len() && !(#[trigger] g[v as int]).is_empty() ==> placed(parts, v)
}

proof fn lemma_is_placed(g: Seq<Set<usize>>, parts: Seq<Vec<usize>>, v: usize)
    requires
        are_all_placed(g, parts),
        v < g.len(),
        !g[v as int].is_empty(),
    ensures
        placed(parts, v),
{
    reveal(are_all_placed);
}

/// A clique of two or more lies inside the component of any of its members.
proof fn lemma_clique_in_component(g: Seq<Set<usize>>, list: Seq<Vec<usize>>, k: Set<usize>) -> (i:
    int)
    requires
        is_graph(g),
        is_clique(g, k),
        k.finite(),
        k.len() > 1,
        forall|i: int| 0 <= i < list.len() ==> is_component(g, #[trigger] list[i]@),
        are_all_placed(g, list),
    ensures
        0 <= i < list.len(),
        k.subset_of(list[i]@.to_set()),
{
    let u = k.choose();
    assert(k.contains(u));
    let rest = k.remove(u);
    let v = rest.choose();
    assert(rest.len() > 0);
    assert(rest.contains(v));
    assert(g[u as int].contains(v));
    assert(!g[u as int].is_empty());
    lemma_is_placed(g, list, u);
    let i = choose|i: int| 0 <= i < list.len() && (#[trigger] list[i])@.contains(u);
    assert(list[i]@.to_set().contains(u));
    assert(is_component(g, list[i]@));
    assert forall|w: usize| #[trigger] k.contains(w) implies list[i]@.to_set().contains(w) by {
        if w != u {
            assert(g[u as int].contains(w));
        }
    }
    i
}

/// Components that share nothing.
spec fn are_parts(g: Seq<Set<usize>>, parts: Seq<Vec<usize>>) -> bool {
    &&& forall|k: int| 0 <= k < parts.len() ==> is_component(g, #[trigger] parts[k]@)
    &&& forall|k: int, l: int|
        0 <= k < l < parts.len() ==> (#[trigger] parts[k])@.to_set().disjoint(
            (#[trigger] parts[l])@.to_set(),
        )
}

/// Does `k` lie inside one of the first `upto` components?
spec fn is_inside(parts: Seq<Vec<usize>>, upto: int, k: Set<usize>) -> bool {
    exists|j: int| 0 <= j < upto && k.subset_of((#[trigger] parts[j])@.to_set())
}

/// What holds when the first `upto` components were searched or given up, and these
/// are the groups found.
#[verifier::opaque]
spec fn is_upto(
    g: Seq<Set<usize>>,
    ceilings: Ceilings,
    parts: Seq<Vec<usize>>,
    upto: int,
    abandoned: Seq<Abandoned>,
    cliques: Seq<Set<usize>>,
) -> bool {
    &&& forall|i: int|
        0 <= i < abandoned.len() ==> was_refused(g, ceilings, #[trigger] abandoned[i])
    &&& forall|i: int|
        0 <= i < abandoned.len() ==> is_among(parts, upto, (#[trigger] abandoned[i]).component@)
    &&& forall|i: int, j: int|
        0 <= i < j < abandoned.len() ==> (#[trigger] abandoned[i]).component@.to_set() != (
        #[trigger] abandoned[j]).component@.to_set()
    &&& forall|j: int|
        0 <= j < upto && !is_dropped(abandoned, (#[trigger] parts[j])@.to_set()) ==> is_within(
            g,
            ceilings,
            parts[j]@.to_set(),
        )
    &&& cliques.no_duplicates()
    &&& forall|k: Set<usize>| #[trigger]
        cliques.contains(k) <==> is_maximal_clique(g, k) && k.len() > 1 && !is_dropped(
            abandoned,
            k,
        ) && is_inside(parts, upto, k)
}

proof fn lemma_upto_refused(
    g: Seq<Set<usize>>,
    ceilings: Ceilings,
    parts: Seq<Vec<usize>>,
    upto: int,
    abandoned: Seq<Abandoned>,
    cliques: Seq<Set<usize>>,
)
    requires
        is_upto(g, ceilings, parts, upto, abandoned, cliques),
    ensures
        forall|i: int|
            0 <= i < abandoned.len() ==> was_refused(g, ceilings, #[trigger] abandoned[i]),
        forall|i: int, j: int|
            0 <= i < j < abandoned.len() ==> (#[trigger] abandoned[i]).component@.to_set() != (
            #[trigger] abandoned[j]).component@.to_set(),
        cliques.no_duplicates(),
{
    reveal(is_upto);
}

/// A set inside one component is inside no other.
proof fn lemma_one_home(
    g: Seq<Set<usize>>,
    parts: Seq<Vec<usize>>,
    at: int,
    j: int,
    k: Set<usize>,
)
    requires
        are_parts(g, parts),
        0 <= at < parts.len(),
        0 <= j < parts.len(),
        k.len() > 0,
        k.subset_of(parts[at]@.to_set()),
        k.subset_of(parts[j]@.to_set()),
    ensures
        j == at,
{
    let u = k.choose();
    assert(k.contains(u));
    assert(parts[at]@.to_set().contains(u) && parts[j]@.to_set().contains(u));
    if j < at {
        assert(parts[j]@.to_set().disjoint(parts[at]@.to_set()));
    } else if at < j {
        assert(parts[at]@.to_set().disjoint(parts[j]@.to_set()));
    }
}

/// Nothing inside the next component has been given up yet.
proof fn lemma_not_dropped_yet(
    g: Seq<Set<usize>>,
    ceilings: Ceilings,
    parts: Seq<Vec<usize>>,
    at: int,
    abandoned: Seq<Abandoned>,
    cliques: Seq<Set<usize>>,
    k: Set<usize>,
)
    requires
        are_parts(g, parts),
        0 <= at < parts.len(),
        is_upto(g, ceilings, parts, at, abandoned, cliques),
        k.len() > 0,
        k.subset_of(parts[at]@.to_set()),
    ensures
        !is_dropped(abandoned, k),
        !is_inside(parts, at, k),
{
    reveal(is_upto);
    if is_dropped(abandoned, k) {
        let i = choose|i: int|
            0 <= i < abandoned.len() && k.subset_of((#[trigger] abandoned[i]).component@.to_set());
        assert(is_among(parts, at, abandoned[i].component@));
        let j = choose|j: int| 0 <= j < at && (#[trigger] parts[j])@ == abandoned[i].component@;
        lemma_one_home(g, parts, at, j, k);
    }
    if is_inside(parts, at, k) {
        let j = choose|j: int| 0 <= j < at && k.subset_of((#[trigger] parts[j])@.to_set());
        lemma_one_home(g, parts, at, j, k);
    }
}

/// Inside the first components, or inside the one after them.
proof fn lemma_inside_next(parts: Seq<Vec<usize>>, at: int, k: Set<usize>)
    requires
        0 <= at < parts.len(),
    ensures
        is_inside(parts, at + 1, k) <==> is_inside(parts, at, k) || k.subset_of(
            parts[at]@.to_set(),
        ),
{
    if is_inside(parts, at + 1, k) {
        let j = choose|j: int| 0 <= j < at + 1 && k.subset_of((#[trigger] parts[j])@.to_set());
        assert(j < at ==> is_inside(parts, at, k));
    }
    if is_inside(parts, at, k) {
        let j = choose|j: int| 0 <= j < at && k.subset_of((#[trigger] parts[j])@.to_set());
        assert(k.subset_of(parts[j]@.to_set()));
    }
}

/// The groups of the next component join those found before.
proof fn lemma_searched(
    g: Seq<Set<usize>>,
    ceilings: Ceilings,
    parts: Seq<Vec<usize>>,
    at: int,
    abandoned: Seq<Abandoned>,
    before: Seq<Set<usize>>,
    added: Seq<Set<usize>>,
)
    requires
        are_parts(g, parts),
        0 <= at < parts.len(),
        is_upto(g, ceilings, parts, at, abandoned, before),
        is_within(g, ceilings, parts[at]@.to_set()),
        added.no_duplicates(),
        forall|k: Set<usize>| #[trigger]
            added.contains(k) <==> is_maximal_clique(g, k) && k.len() > 1 && k.subset_of(
                parts[at]@.to_set(),
            ),
    ensures
        is_upto(g, ceilings, parts, at + 1, abandoned, before + added),
{
    let joint = before + added;
    let n = before.len();
    assert forall|k: Set<usize>| #[trigger] joint.contains(k) <==> is_maximal_clique(g, k)
        && k.len() > 1 && !is_dropped(abandoned, k) && is_inside(parts, at + 1, k) by {
        reveal(is_upto);
        lemma_concat_contains(before, added, k);
        lemma_inside_next(parts, at, k);
        if k.len() > 0 && k.subset_of(parts[at]@.to_set()) {
            lemma_not_dropped_yet(g, ceilings, parts, at, abandoned, before, k);
        }
    }
    assert forall|i: int, j: int|
        0 <= i < joint.len() && 0 <= j < joint.len() && i != j implies joint[i] != joint[j] by {
        reveal(is_upto);
        if i < n && j < n {
            assert(before[i] == joint[i] && before[j] == joint[j]);
        } else if i >= n && j >= n {
            assert(added[i - n] == joint[i] && added[j - n] == joint[j]);
        } else {
            let k = if i < n {
                joint[i]
            } else {
                joint[j]
            };
            let l = if i < n {
                joint[j]
            } else {
                joint[i]
            };
            assert(before.contains(k)) by {
                assert(before[if i < n { i } else { j }] == k);
            }
            assert(added.contains(l)) by {
                assert(added[(if i < n { j } else { i }) - n] == l);
            }
            if k == l {
                lemma_not_dropped_yet(g, ceilings, parts, at, abandoned, before, l);
            }
        }
    }
    reveal(is_upto);
    assert forall|i: int| 0 <= i < abandoned.len() implies is_among(
        parts,
        at + 1,
        (#[trigger] abandoned[i]).component@,
    ) by {
        assert(is_among(parts, at, abandoned[i].component@));
    }
}

/// A set is given up with the components that were, or with one more.
proof fn lemma_dropped_next(abandoned: Seq<Abandoned>, a: Abandoned, k: Set<usize>)
    ensures
        is_dropped(abandoned.push(a), k) <==> is_dropped(abandoned, k) || k.subset_of(
            a.component@.to_set(),
        ),
{
    let more = abandoned.push(a);
    if is_dropped(abandoned, k) {
        let i = choose|i: int|
            0 <= i < abandoned.len() && k.subset_of((#[trigger] abandoned[i]).component@.to_set());
        assert(more[i] == abandoned[i]);
    }
    if k.subset_of(a.component@.to_set()) {
        assert(more[abandoned.len() as int] == a);
    }
    if is_dropped(more, k) {
        let i = choose|i: int|
            0 <= i < more.len() && k.subset_of((#[trigger] more[i]).component@.to_set());
        if i < abandoned.len() {
            assert(more[i] == abandoned[i]);
        }
    }
}

/// The next component is given up, and nothing of it is found.
proof fn lemma_given_up(
    g: Seq<Set<usize>>,
    ceilings: Ceilings,
    parts: Seq<Vec<usize>>,
    at: int,
    abandoned: Seq<Abandoned>,
    cliques: Seq<Set<usize>>,
    a: Abandoned,
)
    requires
        are_parts(g, parts),
        0 <= at < parts.len(),
        is_upto(g, ceilings, parts, at, abandoned, cliques),
        was_refused(g, ceilings, a),
        a.component@ == parts[at]@,
    ensures
        is_upto(g, ceilings, parts, at + 1, abandoned.push(a), cliques),
{
    let more = abandoned.push(a);
    let c = parts[at]@;
    let whole = c.to_set();
    assert forall|k: Set<usize>| #[trigger] cliques.contains(k) <==> is_maximal_clique(g, k)
        && k.len() > 1 && !is_dropped(more, k) && is_inside(parts, at + 1, k) by {
        reveal(is_upto);
        lemma_dropped_next(abandoned, a, k);
        lemma_inside_next(parts, at, k);
        if k.len() > 0 && k.subset_of(whole) {
            lemma_not_dropped_yet(g, ceilings, parts, at, abandoned, cliques, k);
        }
    }
    assert forall|i: int, j: int| 0 <= i < j < more.len() implies (
    #[trigger] more[i]).component@.to_set() != (#[trigger] more[j]).component@.to_set() by {
        reveal(is_upto);
        assert(more[i] == abandoned[i]);
        if j < abandoned.len() {
            assert(more[j] == abandoned[j]);
        } else {
            assert(whole.contains(c[0]));
            let one = set![c[0]];
            if more[i].component@.to_set() == whole {
                lemma_not_dropped_yet(g, ceilings, parts, at, abandoned, cliques, one);
                assert(one.subset_of(abandoned[i].component@.to_set()));
            }
        }
    }
    assert forall|j: int|
        0 <= j < at + 1 && !is_dropped(more, (#[trigger] parts[j])@.to_set()) implies is_within(
        g,
        ceilings,
        parts[j]@.to_set(),
    ) by {
        reveal(is_upto);
        lemma_dropped_next(abandoned, a, parts[j]@.to_set());
    }
    reveal(is_upto);
    assert forall|i: int| 0 <= i < more.len() implies is_among(
        parts,
        at + 1,
        (#[trigger] more[i]).component@,
    ) && was_refused(g, ceilings, more[i]) by {
        if i < abandoned.len() {
            assert(more[i] == abandoned[i]);
            assert(is_among(parts, at, abandoned[i].component@));
        } else {
            assert(parts[at]@ == more[i].component@);
        }
    }
}

/// What holds of every component listed holds of the graph.
proof fn lemma_all_searched(
    g: Seq<Set<usize>>,
    parts: Seq<Vec<usize>>,
    ceilings: Ceilings,
    abandoned: Seq<Abandoned>,
    cliques: Seq<Set<usize>>,
)
    requires
        is_graph(g),
        g.len() <= usize::MAX,
        forall|k: int| 0 <= k < parts.len() ==> is_component(g, #[trigger] parts[k]@),
        are_all_placed(g, parts),
        is_upto(g, ceilings, parts, parts.len() as int, abandoned, cliques),
    ensures
        has_links(g) ==> parts.len() > 0,
        forall|c: Seq<usize>| #[trigger]
            is_component(g, c) && !is_dropped(abandoned, c.to_set()) ==> is_within(
                g,
                ceilings,
                c.to_set(),
            ),
        forall|k: Set<usize>| #[trigger]
            cliques.contains(k) <==> is_maximal_clique(g, k) && k.len() > 1 && !is_dropped(
                abandoned,
                k,
            ),
{
    reveal(is_upto);
    if has_links(g) {
        let v = choose|v: int| 0 <= v < g.len() && !(#[trigger] g[v]).is_empty();
        lemma_is_placed(g, parts, v as usize);
    }
    assert forall|c: Seq<usize>| #[trigger]
        is_component(g, c) && !is_dropped(abandoned, c.to_set()) implies is_within(
        g,
        ceilings,
        c.to_set(),
    ) by {
        assert(!g[c[0] as int].is_empty());
        lemma_is_placed(g, parts, c[0]);
        let j = choose|j: int| 0 <= j < parts.len() && (#[trigger] parts[j])@.contains(c[0]);
        assert(c.contains(c[0]));
        lemma_one_component(g, c, parts[j]@, c[0]);
    }
    assert forall|k: Set<usize>| #[trigger] cliques.contains(k) <==> is_maximal_clique(g, k)
        && k.len() > 1 && !is_dropped(abandoned, k) by {
        if is_maximal_clique(g, k) && k.len() > 1 {
            let i = lemma_clique_in_component(g, parts, k);
            assert(k.subset_of(parts[i]@.to_set()));
        }
    }
}

/// Search one component: its groups, and what halted the search.
fn search_component<F: Fn() -> bool>(
    adjacency: &[HashSet<usize>],
    component: &Vec<usize>,
    ceilings: Ceilings,
    stop: &F,
) -> (out: (Vec<HashSet<usize>>, Option<Halt>))
    requires
        stop.requires(()),
        is_graph(graph_of(adjacency@)),
        is_component(graph_of(adjacency@), component@),
    ensures
        match out.1 {
            None => {
                &&& stop.ensures((), false)
                &&& found(out.0@).no_duplicates()
                &&& forall|k: Set<usize>| #[trigger]
                    found(out.0@).contains(k) <==> is_maximal_clique(graph_of(adjacency@), k)
                        && k.len() > 1 && k.subset_of(component@.to_set())
                &&& is_within(graph_of(adjacency@), ceilings, component@.to_set())
            },
            Some(Halt::Interrupted) => stop.ensures((), true),
            Some(reason) => stop.ensures((), false) && is_refusal(
                graph_of(adjacency@),
                ceilings,
                component@,
                reason,
                out.0@.len(),
            ),
        },
{
    let ghost g = graph_of(adjacency@);
    let ghost c = component@;
    let mut search = Search::new(adjacency, ceilings);
    let all = collected(component);
    let nothing: HashSet<usize> = HashSet::new();
    let none: HashSet<usize> = HashSet::new();
    proof {
        assert(search.graph() == g);
        c.unique_seq_to_set();
        assert forall|w: usize| #[trigger] all@.contains(w) implies extends(g, nothing@, w) by {
            assert(c.contains(w));
        }
        assert(is_step(g, nothing@, all@, none@));
    }
    let ghost whole = all@;
    let ghost empty = nothing@;
    let ghost excluded = none@;
    let ghost fresh = search.cliques@;
    let ghost s = Step {
        g,
        r: empty,
        p: whole,
        x: excluded,
        start: fresh,
        before: ceilings.budget as int,
        groups: ceilings.groups as int,
    };
    bron_kerbosch(nothing, all, none, &mut search, stop);
    let ghost added = found(search.cliques@);
    proof {
        assert(is_answer(s, search.cliques@, search.budget as int, search.halted));
        assert(added_since(fresh, search.cliques@) =~= added);
        assert forall|k: Set<usize>| #[trigger] added.contains(k) implies is_target(
            g,
            empty,
            whole,
            excluded,
            k,
        ) by {
            assert(s.answers_for(k));
        }
        assert(empty.union(whole).union(excluded) =~= whole);
        assert(empty.union(whole) =~= whole);
        assert(excluded =~= Set::<usize>::empty());
        assert(c.len() == whole.len());
        lemma_found_in(g, c, empty, whole, excluded, added);
        assert(added.len() == search.cliques@.len());
        let steps = choose|steps: Seq<Set<usize>>| #[trigger]
            are_steps(g, empty, whole, steps) && accounts_for(
                g,
                whole.union(excluded),
                steps,
                s.before,
                search.budget as int,
                search.halted,
            );
        assert(whole.union(excluded) =~= c.to_set());
        assert(are_cliques_in(g, c.to_set(), steps));
    }
    match search.halted {
        Some(reason) => {
            return (search.cliques, Some(reason));
        },
        None => {},
    }
    // A search that ended on one group too many is over the ceiling too.
    if search.cliques.len() > ceilings.groups {
        return (search.cliques, Some(Halt::Groups));
    }
    proof {
        assert forall|k: Set<usize>| #[trigger] added.contains(k) <==> is_maximal_clique(g, k)
            && k.len() > 1 && k.subset_of(c.to_set()) by {
            if added.contains(k) {
                let i = choose|i: int| 0 <= i < added.len() && added[i] == k;
                assert(is_maximal_clique(g, added[i]));
            }
            if is_maximal_clique(g, k) && k.len() > 1 && k.subset_of(c.to_set()) {
                assert forall|u: usize| #[trigger] whole.contains(u) implies u < g.len() by {
                    assert(c.contains(u));
                }
                lemma_closed_maximal(g, whole, k);
                assert(s.answers_for(k));
            }
        }
        assert forall|list: Seq<Set<usize>>| #[trigger]
            are_groups_in(g, c.to_set(), list) implies list.len() <= ceilings.groups && list.len()
            <= ceilings.budget by {
            assert forall|i: int| 0 <= i < list.len() implies added.contains(
                #[trigger] list[i],
            ) by {}
            lemma_no_longer(list, added);
        }
    }
    (search.cliques, None)
}

/// Every maximal clique of every component, each once.
///
/// A component whose search halts on a ceiling contributes nothing and is listed
/// as abandoned; an interrupt ends the walk.
pub fn enumerate<F: Fn() -> bool>(
    adjacency: &[HashSet<usize>],
    ceilings: Ceilings,
    stop: &F,
) -> (e: Enumeration)
    requires
        stop.requires(()),
        is_graph(graph_of(adjacency@)),
    ensures
        forall|i: int|
            0 <= i < e.abandoned@.len() ==> was_refused(
                graph_of(adjacency@),
                ceilings,
                #[trigger] e.abandoned@[i],
            ),
        forall|i: int, j: int|
            0 <= i < j < e.abandoned@.len() ==> (#[trigger] e.abandoned@[i]).component@.to_set()
                != (#[trigger] e.abandoned@[j]).component@.to_set(),
        is_honoured(
            stop,
            has_links(graph_of(adjacency@)),
            e.abandoned@.len(),
            e.interrupted,
        ),
        !e.interrupted ==> forall|c: Seq<usize>| #[trigger]
            is_component(graph_of(adjacency@), c) && !is_dropped(e.abandoned@, c.to_set())
                ==> is_within(graph_of(adjacency@), ceilings, c.to_set()),
        !e.interrupted ==> {
            &&& found(e.cliques@).no_duplicates()
            &&& forall|k: Set<usize>| #[trigger]
                found(e.cliques@).contains(k) <==> is_maximal_clique(graph_of(adjacency@), k)
                    && k.len() > 1 && !is_dropped(e.abandoned@, k)
        },
{
    let ghost g = graph_of(adjacency@);
    let parts = components(adjacency);
    let mut cliques: Vec<HashSet<usize>> = Vec::new();
    let mut abandoned: Vec<Abandoned> = Vec::new();
    proof {
        assert(are_all_placed(g, parts@)) by {
            reveal(are_all_placed);
            assert forall|v: usize|
                v < g.len() && !(#[trigger] g[v as int]).is_empty() implies placed(parts@, v) by {
                assert(g[v as int] == adjacency@[v as int]@);
            }
        }
    }
    assert(is_upto(g, ceilings, parts@, 0, abandoned@, found(cliques@))) by {
        reveal(is_upto);
        assert forall|k: Set<usize>| !found(cliques@).contains(k) by {}
    }
    for at in 0..parts.len()
        invariant
            stop.requires(()),
            g == graph_of(adjacency@),
            is_graph(g),
            are_parts(g, parts@),
            at > 0 ==> stop.ensures((), false),
            at == 0 ==> abandoned@.len() == 0,
            is_upto(g, ceilings, parts@, at as int, abandoned@, found(cliques@)),
    {
        let ghost c = parts@[at as int]@;
        let ghost before = found(cliques@);
        let (mut here, halted) = search_component(adjacency, &parts[at], ceilings, stop);
        let ghost added = found(here@);
        let count = here.len();
        match halted {
            None => {
                proof {
                    lemma_searched(
                        g,
                        ceilings,
                        parts@,
                        at as int,
                        abandoned@,
                        before,
                        added,
                    );
                    assert(found(cliques@ + here@) =~= before + added);
                }
                cliques.append(&mut here);
            },
            Some(Halt::Interrupted) => {
                proof {
                    assert(!g[c[0] as int].is_empty());
                    lemma_upto_refused(g, ceilings, parts@, at as int, abandoned@, before);
                }
                return Enumeration { cliques: Vec::new(), abandoned, interrupted: true };
            },
            Some(reason) => {
                let component = parts[at].clone();
                assert(component@ =~= c);
                let ghost a = Abandoned { component, reason, found: count };
                proof {
                    lemma_given_up(
                        g,
                        ceilings,
                        parts@,
                        at as int,
                        abandoned@,
                        before,
                        a,
                    );
                }
                abandoned.push(Abandoned { component, reason, found: count });
            },
        }
    }
    proof {
        assert(adjacency@.len() <= usize::MAX) by {
            assert(adjacency.len() == adjacency@.len());
        }
        lemma_upto_refused(
            g,
            ceilings,
            parts@,
            parts@.len() as int,
            abandoned@,
            found(cliques@),
        );
        assert forall|k: int| 0 <= k < parts@.len() implies is_component(
            g,
            #[trigger] parts@[k]@,
        ) by {}
        lemma_all_searched(g, parts@, ceilings, abandoned@, found(cliques@));
    }
    Enumeration { cliques, abandoned, interrupted: false }
}

pub proof fn lemma_concat_contains<T>(a: Seq<T>, b: Seq<T>, x: T)
    ensures
        (a + b).contains(x) <==> a.contains(x) || b.contains(x),
{
    let s = a + b;
    if s.contains(x) {
        let i = choose|i: int| 0 <= i < s.len() && s[i] == x;
        if i < a.len() {
            assert(a[i] == x);
        } else {
            assert(b[i - a.len()] == x);
        }
    }
    if a.contains(x) {
        let i = choose|i: int| 0 <= i < a.len() && a[i] == x;
        assert(s[i] == x);
    }
    if b.contains(x) {
        let i = choose|i: int| 0 <= i < b.len() && b[i] == x;
        assert(s[i + a.len()] == x);
    }
}

} // verus!
