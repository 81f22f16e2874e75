//! Turning "these two videos match" edges into groups.
//!
//! A group is a *maximal clique*: every file in it matched every other file in
//! it, and no file outside it matched all of them. Matching is not transitive,
//! so anything looser would put files side by side that were never compared.
//! The price of being strict is that groups overlap: a file belonging to two
//! cliques is reported in both.

use crate::cliques::{
    complete_work, extends, found, graph_of, is_clique, is_graph, is_maximal_clique, lemma_bounded_len,
    lemma_work_grows, work, Ceilings, Halt, MAX_GROUPS_PER_COMPONENT, SEARCH_BUDGET_PER_COMPONENT,
};
use crate::enumeration::{
    are_groups_in, enumerate, has_links, is_closed, is_component, is_dropped, is_honoured, is_within,
    lemma_one_component, ran_out, was_refused, Abandoned,
};
use crate::fingerprint::VideoFingerprint;
use crate::ordering::{
    in_order, is_sorted, lemma_one_order, lemma_same_members, lemma_same_multiset, sorted,
    Precedence,
};
use crate::paths::{common_parent, joined, shared_folder};
use crate::sets::members;
use crate::stats::RunStats;
use crate::text::{
    decimal, lemma_text_total, lemma_text_transitive, lemma_texts_total, lemma_texts_transitive,
    number, text_le, text_standing, texts, texts_le, Standing,
};
use std::collections::HashSet;
use vstd::arithmetic::power2::pow2;
use vstd::prelude::*;

verus! {

broadcast use vstd::std_specs::hash::group_hash_axioms;

/// What stopped a search and how far it had got.
pub open spec fn ceiling_text(reason: Halt, found: nat, groups: nat) -> Seq<char> {
    match reason {
        Halt::Budget => "the search for groups ran past its work ceiling, with "@ + decimal(found)
            + " found so far"@,
        Halt::Groups => "they form more than "@ + decimal(groups)
            + " overlapping groups, which is more than can be reported"@,
        Halt::Interrupted => "the run was interrupted"@,
    }
}

impl Halt {
    /// What stopped the search and how far it had got, phrased for the summary.
    ///
    /// Against the work budget the count says how far the search got. Against the
    /// output ceiling it would always be one past the ceiling, so the ceiling
    /// itself is named instead.
    pub fn ceiling(&self, found: usize, ceilings: Ceilings) -> (line: String)
        ensures
            line@ == ceiling_text(*self, found as nat, ceilings.groups as nat),
    {
        match self {
            Halt::Budget => {
                let mut line = "the search for groups ran past its work ceiling, with ".to_owned();
                line.append(number(found as u64).as_str());
                line.append(" found so far");
                line
            },
            Halt::Groups => {
                let mut line = "they form more than ".to_owned();
                line.append(number(ceilings.groups as u64).as_str());
                line.append(" overlapping groups, which is more than can be reported");
                line
            },
            Halt::Interrupted => "the run was interrupted".to_owned(),
        }
    }
}

/// The paths of the files listed.
pub open spec fn paths_of(fps: Seq<VideoFingerprint>, group: Seq<usize>) -> Seq<Seq<char>> {
    group.map_values(|i: usize| fps[i as int].path@)
}

/// The line the summary shows for an abandoned component: how many files were in
/// it, which ceiling stopped it and how far it had got, and the folder they share.
pub open spec fn abandoned_line(
    fps: Seq<VideoFingerprint>,
    component: Seq<usize>,
    reason: Halt,
    found: nat,
    groups: nat,
) -> Seq<char> {
    let line = decimal(component.len()) + " file(s) linked too densely to group -- "@
        + ceiling_text(reason, found, groups);
    let folder = shared_folder(paths_of(fps, component));
    if folder.len() > 0 {
        line + "; all under "@ + joined(folder)
    } else {
        line
    }
}

/// The line for one abandoned component.
pub fn abandoned_detail(
    component: &Vec<usize>,
    reason: Halt,
    found: usize,
    ceilings: Ceilings,
    fps: &[VideoFingerprint],
) -> (line: String)
    requires
        forall|i: int| 0 <= i < component@.len() ==> #[trigger] component@[i] < fps@.len(),
    ensures
        line@ == abandoned_line(
            fps@,
            component@,
            reason,
            found as nat,
            ceilings.groups as nat,
        ),
{
    let mut line = number(component.len() as u64);
    line.append(" file(s) linked too densely to group -- ");
    line.append(reason.ceiling(found, ceilings).as_str());
    let mut paths: Vec<String> = Vec::new();
    for i in 0..component.len()
        invariant
            forall|i: int| 0 <= i < component@.len() ==> #[trigger] component@[i] < fps@.len(),
            texts(paths@) == paths_of(fps@, component@).take(i as int),
    {
        let ghost before = paths@;
        assert(component@[i as int] < fps@.len());
        paths.push(fps[component[i]].path.clone());
        proof {
            assert(texts(paths@) =~= texts(before).push(fps@[component@[i as int] as int].path@));
            assert(paths_of(fps@, component@).take(i + 1) =~= paths_of(fps@, component@).take(
                i as int,
            ).push(fps@[component@[i as int] as int].path@));
        }
    }
    assert(paths_of(fps@, component@).take(component@.len() as int) =~= paths_of(fps@, component@));
    match common_parent(&paths) {
        Some(folder) => {
            line.append("; all under ");
            line.append(folder.as_str());
            line
        },
        None => line,
    }
}

/// Was `u` matched with `v`?
pub open spec fn is_edge(edges: Seq<(usize, usize)>, u: usize, v: usize) -> bool {
    edges.contains((u, v)) || edges.contains((v, u))
}

/// The graph a list of matches describes.
pub open spec fn match_graph(n: nat, edges: Seq<(usize, usize)>) -> Seq<Set<usize>> {
    Seq::new(n, |u: int| Set::new(|v: usize| is_edge(edges, u as usize, v)))
}

/// The order of files by path.
pub struct ByPath<'a> {
    pub fps: &'a [VideoFingerprint],
}

impl<'a> Precedence<usize> for ByPath<'a> {
    open spec fn le(&self, a: usize, b: usize) -> bool {
        text_le(self.fps@[a as int].path@, self.fps@[b as int].path@)
    }

    open spec fn knows(&self, a: usize) -> bool {
        a < self.fps@.len()
    }

    proof fn le_is_total(&self, a: usize, b: usize) {
        lemma_text_total(self.fps@[a as int].path@, self.fps@[b as int].path@);
    }

    proof fn le_is_transitive(&self, a: usize, b: usize, c: usize) {
        lemma_text_transitive(
            self.fps@[a as int].path@,
            self.fps@[b as int].path@,
            self.fps@[c as int].path@,
        );
    }

    fn precedes(&self, a: &usize, b: &usize) -> (yes: bool) {
        let x = &self.fps[*a].path;
        let y = &self.fps[*b].path;
        proof {
            lemma_text_total(x@, y@);
        }
        match text_standing(x.as_str(), y.as_str()) {
            Standing::Before => true,
            Standing::Same => true,
            Standing::After => false,
        }
    }
}

/// The order of groups: the largest first, then by the paths of their members.
pub open spec fn group_le(fps: Seq<VideoFingerprint>, a: Seq<usize>, b: Seq<usize>) -> bool {
    a.len() > b.len() || (a.len() == b.len() && texts_le(paths_of(fps, a), paths_of(fps, b)))
}

/// Where one group's paths stand relative to another's.
fn paths_precede(fps: &[VideoFingerprint], a: &Vec<usize>, b: &Vec<usize>) -> (yes: bool)
    requires
        a@.len() == b@.len(),
        forall|i: int| 0 <= i < a@.len() ==> #[trigger] a@[i] < fps@.len(),
        forall|i: int| 0 <= i < b@.len() ==> #[trigger] b@[i] < fps@.len(),
    ensures
        yes == texts_le(paths_of(fps@, a@), paths_of(fps@, b@)),
{
    let ghost x = paths_of(fps@, a@);
    let ghost y = paths_of(fps@, b@);
    assert(x.skip(0) =~= x);
    assert(y.skip(0) =~= y);
    for i in 0..a.len()
        invariant
            a@.len() == b@.len(),
            forall|i: int| 0 <= i < a@.len() ==> #[trigger] a@[i] < fps@.len(),
            forall|i: int| 0 <= i < b@.len() ==> #[trigger] b@[i] < fps@.len(),
            x == paths_of(fps@, a@),
            y == paths_of(fps@, b@),
            texts_le(x, y) == texts_le(x.skip(i as int), y.skip(i as int)),
    {
        assert(a@[i as int] < fps@.len() && b@[i as int] < fps@.len());
        let p = &fps[a[i]].path;
        let q = &fps[b[i]].path;
        proof {
            assert(x.skip(i as int)[0] == p@);
            assert(y.skip(i as int)[0] == q@);
            assert(x.skip(i as int).drop_first() =~= x.skip(i + 1));
            assert(y.skip(i as int).drop_first() =~= y.skip(i + 1));
            lemma_text_total(p@, q@);
        }
        match text_standing(p.as_str(), q.as_str()) {
            Standing::Before => {
                return true;
            },
            Standing::After => {
                return false;
            },
            Standing::Same => {},
        }
    }
    true
}

/// The order of groups, by their place in a list.
pub struct ByRank<'a> {
    pub fps: &'a [VideoFingerprint],
    pub groups: &'a Vec<Vec<usize>>,
}

impl<'a> Precedence<usize> for ByRank<'a> {
    open spec fn le(&self, a: usize, b: usize) -> bool {
        group_le(self.fps@, self.groups@[a as int]@, self.groups@[b as int]@)
    }

    open spec fn knows(&self, a: usize) -> bool {
        a < self.groups@.len() && forall|i: int|
            0 <= i < self.groups@[a as int]@.len() ==> #[trigger] self.groups@[a as int]@[i]
                < self.fps@.len()
    }

    proof fn le_is_total(&self, a: usize, b: usize) {
        lemma_texts_total(
            paths_of(self.fps@, self.groups@[a as int]@),
            paths_of(self.fps@, self.groups@[b as int]@),
        );
    }

    proof fn le_is_transitive(&self, a: usize, b: usize, c: usize) {
        let x = paths_of(self.fps@, self.groups@[a as int]@);
        let y = paths_of(self.fps@, self.groups@[b as int]@);
        let z = paths_of(self.fps@, self.groups@[c as int]@);
        if texts_le(x, y) && texts_le(y, z) {
            lemma_texts_transitive(x, y, z);
        }
    }

    fn precedes(&self, a: &usize, b: &usize) -> (yes: bool) {
        let x = &self.groups[*a];
        let y = &self.groups[*b];
        if x.len() != y.len() {
            x.len() > y.len()
        } else {
            paths_precede(self.fps, x, y)
        }
    }
}

/// Is `k` the members of one of these groups?
pub open spec fn is_reported(groups: Seq<Vec<usize>>, k: Set<usize>) -> bool {
    exists|i: int| 0 <= i < groups.len() && (#[trigger] groups[i])@.to_set() == k
}

/// A complete report of a graph, but for the components abandoned: every maximal
/// clique of two or more once, its members ordered by path, the groups largest
/// first and then by the paths of their members.
pub open spec fn is_grouping(
    g: Seq<Set<usize>>,
    fps: Seq<VideoFingerprint>,
    abandoned: Seq<Abandoned>,
    groups: Seq<Vec<usize>>,
) -> bool {
    &&& forall|i: int| 0 <= i < groups.len() ==> (#[trigger] groups[i])@.no_duplicates()
    &&& forall|i: int|
        0 <= i < groups.len() ==> is_sorted(
            (#[trigger] groups[i])@,
            |a: usize, b: usize| text_le(fps[a as int].path@, fps[b as int].path@),
        )
    &&& forall|i: int, j: int|
        0 <= i < j < groups.len() ==> (#[trigger] groups[i])@.to_set() != (
        #[trigger] groups[j])@.to_set()
    &&& forall|i: int, j: int|
        0 <= i < j < groups.len() ==> group_le(
            fps,
            (#[trigger] groups[i])@,
            (#[trigger] groups[j])@,
        )
    &&& forall|k: Set<usize>| #[trigger]
        is_reported(groups, k) <==> is_maximal_clique(g, k) && k.len() > 1 && !is_dropped(
            abandoned,
            k,
        )
}

/// The lines an abandonment list adds to the summary.
pub open spec fn abandoned_lines(
    fps: Seq<VideoFingerprint>,
    ceilings: Ceilings,
    abandoned: Seq<Abandoned>,
) -> Seq<Seq<char>> {
    abandoned.map_values(
        |a: Abandoned|
            abandoned_line(
                fps,
                a.component@,
                a.reason,
                a.found as nat,
                ceilings.groups as nat,
            ),
    )
}

/// What grouping came to: a report of everything but the components abandoned, or
/// nothing at all when the run was interrupted; and a line in the summary for each
/// component abandoned. That happens to none but those whose search went past a
/// ceiling, and to all that have more groups than the ceiling on groups.
pub open spec fn is_outcome(
    g: Seq<Set<usize>>,
    fps: Seq<VideoFingerprint>,
    ceilings: Ceilings,
    abandoned: Seq<Abandoned>,
    interrupted: bool,
    before: Seq<String>,
    after: Seq<String>,
    groups: Seq<Vec<usize>>,
) -> bool {
    &&& forall|i: int|
        0 <= i < abandoned.len() ==> was_refused(g, ceilings, #[trigger] abandoned[i])
    &&& forall|i: int, j: int|
        0 <= i < j < abandoned.len() ==> (#[trigger] abandoned[i]).component@.to_set() != (
        #[trigger] abandoned[j]).component@.to_set()
    &&& texts(after) == texts(before) + abandoned_lines(fps, ceilings, abandoned)
    &&& if interrupted {
        groups.len() == 0
    } else {
        is_grouping(g, fps, abandoned, groups) && is_searched(g, ceilings, abandoned)
    }
}

/// Every component that was not abandoned was searched to its end.
pub open spec fn is_searched(
    g: Seq<Set<usize>>,
    ceilings: Ceilings,
    abandoned: Seq<Abandoned>,
) -> bool {
    forall|c: Seq<usize>| #[trigger]
        is_component(g, c) && !is_dropped(abandoned, c.to_set()) ==> is_within(
            g,
            ceilings,
            c.to_set(),
        )
}

/// The neighbour sets of the graph a list of matches describes.
fn adjacency_from(n: usize, edges: &Vec<(usize, usize)>) -> (adjacency: Vec<HashSet<usize>>)
    requires
        forall|k: int|
            0 <= k < edges@.len() ==> (#[trigger] edges@[k]).0 < n && edges@[k].1 < n
                && edges@[k].0 != edges@[k].1,
    ensures
        graph_of(adjacency@) == match_graph(n as nat, edges@),
        is_graph(match_graph(n as nat, edges@)),
{
    let mut adjacency: Vec<HashSet<usize>> = Vec::new();
    for i in 0..n
        invariant
            adjacency@.len() == i,
            forall|j: int| 0 <= j < i ==> (#[trigger] adjacency@[j])@ == Set::<usize>::empty(),
    {
        adjacency.push(HashSet::new());
    }
    proof {
        assert(edges@.take(0) =~= Seq::<(usize, usize)>::empty());
        assert forall|j: int, v: usize| 0 <= j < n implies #[trigger] adjacency@[j]@.contains(v)
            == is_edge(edges@.take(0), j as usize, v) by {}
    }
    for k in 0..edges.len()
        invariant
            forall|k: int|
                0 <= k < edges@.len() ==> (#[trigger] edges@[k]).0 < n && edges@[k].1 < n
                    && edges@[k].0 != edges@[k].1,
            adjacency@.len() == n,
            forall|j: int, v: usize|
                0 <= j < n ==> #[trigger] adjacency@[j]@.contains(v) == is_edge(
                    edges@.take(k as int),
                    j as usize,
                    v,
                ),
    {
        let (a, b) = edges[k];
        let ghost before = adjacency@;
        assert(edges@[k as int].0 < n);
        adjacency[a].insert(b);
        let ghost halfway = adjacency@;
        adjacency[b].insert(a);
        proof {
            let e0 = edges@.take(k as int);
            let e1 = edges@.take(k + 1);
            assert(e1 =~= e0.push((a, b)));
            assert forall|j: int, v: usize| 0 <= j < n implies #[trigger] adjacency@[j]@.contains(v)
                == is_edge(e1, j as usize, v) by {
                let u = j as usize;
                assert(e1.contains((u, v)) <==> e0.contains((u, v)) || (u, v) == (a, b)) by {
                    crate::enumeration::lemma_concat_contains(e0, seq![(a, b)], (u, v));
                    assert(e1 =~= e0 + seq![(a, b)]);
                    assert(seq![(a, b)][0] == (a, b));
                }
                assert(e1.contains((v, u)) <==> e0.contains((v, u)) || (v, u) == (a, b)) by {
                    crate::enumeration::lemma_concat_contains(e0, seq![(a, b)], (v, u));
                    assert(e1 =~= e0 + seq![(a, b)]);
                    assert(seq![(a, b)][0] == (a, b));
                }
                assert(before[j]@.contains(v) == is_edge(e0, u, v));
            }
        }
    }
    proof {
        let g = match_graph(n as nat, edges@);
        assert(edges@.take(edges@.len() as int) =~= edges@);
        assert forall|j: int| 0 <= j < n implies #[trigger] graph_of(adjacency@)[j] == g[j] by {
            assert forall|v: usize| #[trigger] adjacency@[j]@.contains(v) == g[j].contains(v) by {}
            assert(adjacency@[j]@ =~= g[j]);
        }
        assert(graph_of(adjacency@) =~= g);
        assert forall|u: usize, v: usize|
            u < g.len() && #[trigger] g[u as int].contains(v) implies v < g.len() && v != u
            && g[v as int].contains(u) by {
            if edges@.contains((u, v)) {
                let i = choose|i: int| 0 <= i < edges@.len() && edges@[i] == (u, v);
                assert(edges@[i].0 < n);
            } else {
                let i = choose|i: int| 0 <= i < edges@.len() && edges@[i] == (v, u);
                assert(edges@[i].0 < n);
            }
        }
    }
    adjacency
}

/// Every clique as a list, ordered by path.
fn listed(cliques: &Vec<HashSet<usize>>, fps: &[VideoFingerprint]) -> (lists: Vec<Vec<usize>>)
    requires
        forall|i: int, v: usize|
            0 <= i < cliques@.len() && #[trigger] cliques@[i]@.contains(v) ==> v < fps@.len(),
    ensures
        lists@.len() == cliques@.len(),
        forall|i: int|
            0 <= i < lists@.len() ==> {
                &&& (#[trigger] lists@[i])@.no_duplicates()
                &&& lists@[i]@.to_set() == found(cliques@)[i]
                &&& in_order(lists@[i]@, &ByPath { fps })
                &&& forall|j: int| 0 <= j < lists@[i]@.len() ==> #[trigger] lists@[i]@[j] < fps@.len()
            },
{
    let by_path = ByPath { fps };
    let mut lists: Vec<Vec<usize>> = Vec::new();
    for i in 0..cliques.len()
        invariant
            by_path == (ByPath { fps }),
            forall|i: int, v: usize|
                0 <= i < cliques@.len() && #[trigger] cliques@[i]@.contains(v) ==> v < fps@.len(),
            lists@.len() == i,
            forall|i: int|
                0 <= i < lists@.len() ==> {
                    &&& (#[trigger] lists@[i])@.no_duplicates()
                    &&& lists@[i]@.to_set() == found(cliques@)[i]
                    &&& in_order(lists@[i]@, &by_path)
                    &&& forall|j: int|
                        0 <= j < lists@[i]@.len() ==> #[trigger] lists@[i]@[j] < fps@.len()
                },
    {
        let walk = members(&cliques[i]);
        proof {
            assert forall|j: int| 0 <= j < walk@.len() implies by_path.knows(#[trigger] walk@[j]) by {
                assert(walk@.to_set().contains(walk@[j]));
                assert(cliques@[i as int]@.contains(walk@[j]));
            }
        }
        let ordered = sorted(&walk, &by_path);
        proof {
            lemma_same_members(ordered@, walk@);
            assert forall|j: int| 0 <= j < ordered@.len() implies #[trigger] ordered@[j]
                < fps@.len() by {
                assert(by_path.knows(ordered@[j]));
            }
        }
        lists.push(ordered);
    }
    lists
}

/// Whether `groups` holds the lists in the order of their places in `order`.
spec fn is_reordered(lists: Seq<Vec<usize>>, order: Seq<usize>, groups: Seq<Vec<usize>>) -> bool {
    &&& lists.len() <= usize::MAX
    &&& order.len() == lists.len()
    &&& groups.len() == lists.len()
    &&& order.no_duplicates()
    &&& forall|i: int|
        0 <= i < order.len() ==> #[trigger] order[i] < lists.len() && groups[i]@
            == lists[order[i] as int]@
    &&& forall|v: usize| v < lists.len() ==> #[trigger] order.contains(v)
}

/// Lists of the members of some sets report those sets in whatever order they stand.
proof fn lemma_reported(
    lists: Seq<Vec<usize>>,
    sets: Seq<Set<usize>>,
    order: Seq<usize>,
    groups: Seq<Vec<usize>>,
    k: Set<usize>,
)
    requires
        is_reordered(lists, order, groups),
        sets.len() == lists.len(),
        forall|i: int| 0 <= i < lists.len() ==> (#[trigger] lists[i])@.to_set() == sets[i],
    ensures
        is_reported(groups, k) <==> sets.contains(k),
{
    if is_reported(groups, k) {
        let i = choose|i: int| 0 <= i < groups.len() && (#[trigger] groups[i])@.to_set() == k;
        let at = order[i] as int;
        assert(lists[at]@.to_set() == sets[at]);
        assert(sets[at] == k);
    }
    if sets.contains(k) {
        let j = choose|j: int| 0 <= j < sets.len() && sets[j] == k;
        assert(order.contains(j as usize));
        let i = choose|i: int| 0 <= i < order.len() && order[i] == j as usize;
        assert(order[i] < lists.len());
        assert(groups[i]@ == lists[j]@);
        assert(lists[j]@.to_set() == sets[j]);
    }
}

/// The lists, in the order groups are reported.
fn ranked(lists: Vec<Vec<usize>>, fps: &[VideoFingerprint]) -> (groups: Vec<Vec<usize>>)
    requires
        forall|i: int, j: int|
            0 <= i < lists@.len() && 0 <= j < lists@[i]@.len() ==> #[trigger] lists@[i]@[j]
                < fps@.len(),
    ensures
        groups@.len() == lists@.len(),
        forall|i: int, j: int|
            0 <= i < j < groups@.len() ==> group_le(
                fps@,
                (#[trigger] groups@[i])@,
                (#[trigger] groups@[j])@,
            ),
        exists|order: Seq<usize>| #[trigger] is_reordered(lists@, order, groups@),
{
    let mut places: Vec<usize> = Vec::new();
    for i in 0..lists.len()
        invariant
            places@.len() == i,
            forall|j: int| 0 <= j < i ==> #[trigger] places@[j] == j,
    {
        places.push(i);
    }
    let by_rank = ByRank { fps, groups: &lists };
    let order = sorted(&places, &by_rank);
    let mut groups: Vec<Vec<usize>> = Vec::new();
    proof {
        lemma_same_members(order@, places@);
        assert(places@.no_duplicates());
        assert forall|v: usize| v < lists@.len() implies #[trigger] order@.contains(v) by {
            assert(places@[v as int] == v);
            assert(places@.contains(v));
        }
        assert forall|i: int| 0 <= i < order@.len() implies #[trigger] order@[i] < lists@.len() by {
            assert(by_rank.knows(order@[i]));
        }
    }
    for i in 0..order.len()
        invariant
            forall|i: int| 0 <= i < order@.len() ==> #[trigger] order@[i] < lists@.len(),
            groups@.len() == i,
            forall|j: int|
                0 <= j < i ==> (#[trigger] groups@[j])@ == lists@[order@[j] as int]@,
    {
        assert(order@[i as int] < lists@.len());
        let list = lists[order[i]].clone();
        assert(list@ =~= lists@[order@[i as int] as int]@);
        groups.push(list);
    }
    proof {
        assert forall|i: int, j: int| 0 <= i < j < groups@.len() implies group_le(
            fps@,
            (#[trigger] groups@[i])@,
            (#[trigger] groups@[j])@,
        ) by {
            assert(by_rank.le(order@[i], order@[j]));
        }
        assert(lists@.len() == lists.len());
        assert(is_reordered(lists@, order@, groups@));
    }
    groups
}

/// Put a line in the summary for each component abandoned.
fn record_abandoned(
    abandoned: &Vec<Abandoned>,
    ceilings: Ceilings,
    fps: &[VideoFingerprint],
    stats: &mut RunStats,
)
    requires
        forall|i: int, j: int|
            0 <= i < abandoned@.len() && 0 <= j < abandoned@[i].component@.len() ==> (
            #[trigger] abandoned@[i].component@[j]) < fps@.len(),
    ensures
        final(stats).delete_stale == old(stats).delete_stale,
        final(stats).delete_failed == old(stats).delete_failed,
        final(stats).report_write_failed == old(stats).report_write_failed,
        texts(final(stats).clustering_abandoned.lines@) == texts(
            old(stats).clustering_abandoned.lines@,
        ) + abandoned_lines(fps@, ceilings, abandoned@),
{
    let ghost before = stats.clustering_abandoned.lines@;
    assert(texts(before) =~= texts(before) + abandoned_lines(fps@, ceilings, abandoned@.take(0)));
    for i in 0..abandoned.len()
        invariant
            forall|i: int, j: int|
                0 <= i < abandoned@.len() && 0 <= j < abandoned@[i].component@.len() ==> (
                #[trigger] abandoned@[i].component@[j]) < fps@.len(),
            stats.delete_stale == old(stats).delete_stale,
            stats.delete_failed == old(stats).delete_failed,
            stats.report_write_failed == old(stats).report_write_failed,
            texts(stats.clustering_abandoned.lines@) == texts(before) + abandoned_lines(
                fps@,
                ceilings,
                abandoned@.take(i as int),
            ),
    {
        let a = &abandoned[i];
        let line = abandoned_detail(&a.component, a.reason, a.found, ceilings, fps);
        let ghost lines = stats.clustering_abandoned.lines@;
        stats.clustering_abandoned.record(line);
        proof {
            assert(texts(stats.clustering_abandoned.lines@) =~= texts(lines).push(line@));
            assert(abandoned@.take(i + 1) =~= abandoned@.take(i as int).push(*a));
            assert(abandoned_lines(fps@, ceilings, abandoned@.take(i + 1)) =~= abandoned_lines(
                fps@,
                ceilings,
                abandoned@.take(i as int),
            ).push(line@));
        }
    }
    assert(abandoned@.take(abandoned@.len() as int) =~= abandoned@);
}

/// `find_duplicate_groups` with the ceilings supplied.
pub fn group_within<F: Fn() -> bool>(
    n: usize,
    edges: Vec<(usize, usize)>,
    fingerprints: &[VideoFingerprint],
    stats: &mut RunStats,
    ceilings: Ceilings,
    stop: &F,
) -> (groups: Vec<Vec<usize>>)
    requires
        stop.requires(()),
        forall|k: int|
            0 <= k < edges@.len() ==> {
                &&& (#[trigger] edges@[k]).0 < n && edges@[k].0 < fingerprints@.len()
                &&& edges@[k].1 < n && edges@[k].1 < fingerprints@.len()
                &&& edges@[k].0 != edges@[k].1
            },
    ensures
        final(stats).delete_stale == old(stats).delete_stale,
        final(stats).delete_failed == old(stats).delete_failed,
        final(stats).report_write_failed == old(stats).report_write_failed,
        exists|abandoned: Seq<Abandoned>, interrupted: bool|
            is_honoured(stop, edges@.len() > 0, abandoned.len(), interrupted)
                && #[trigger] is_outcome(
                match_graph(n as nat, edges@),
                fingerprints@,
                ceilings,
                abandoned,
                interrupted,
                old(stats).clustering_abandoned.lines@,
                final(stats).clustering_abandoned.lines@,
                groups@,
            ),
{
    let ghost g = match_graph(n as nat, edges@);
    let adjacency = adjacency_from(n, &edges);
    let e = enumerate(adjacency.as_slice(), ceilings, stop);
    proof {
        if edges@.len() > 0 {
            let (a, b) = edges@[0];
            assert(edges@.contains((a, b)));
            assert(g[a as int].contains(b));
            assert(has_links(g));
        }
        if has_links(g) {
            let v = choose|v: int| 0 <= v < g.len() && !(#[trigger] g[v]).is_empty();
            let w = choose|w: usize| g[v].contains(w);
            if forall|w: usize| !g[v].contains(w) {
                assert(g[v] =~= Set::empty());
            }
            assert(is_edge(edges@, v as usize, w));
        }
    }
    let ghost before = stats.clustering_abandoned.lines@;
    // A file in a group, or in a component, has been matched with another.
    assert forall|v: usize| v < g.len() && !(#[trigger] g[v as int]).is_empty() implies v
        < fingerprints@.len() by {
        let w = choose|w: usize| g[v as int].contains(w);
        assert(exists|w: usize| g[v as int].contains(w)) by {
            if forall|w: usize| !g[v as int].contains(w) {
                assert(g[v as int] =~= Set::empty());
            }
        }
        assert(is_edge(edges@, v, w));
        if edges@.contains((v, w)) {
            let i = choose|i: int| 0 <= i < edges@.len() && edges@[i] == (v, w);
            assert(edges@[i].0 < fingerprints@.len());
        } else {
            let i = choose|i: int| 0 <= i < edges@.len() && edges@[i] == (w, v);
            assert(edges@[i].1 < fingerprints@.len());
        }
    }
    assert forall|i: int, j: int|
        0 <= i < e.abandoned@.len() && 0 <= j < e.abandoned@[i].component@.len() implies (
    #[trigger] e.abandoned@[i].component@[j]) < fingerprints@.len() by {
        assert(was_refused(g, ceilings, e.abandoned@[i]));
        assert(is_component(g, e.abandoned@[i].component@));
        assert(!g[e.abandoned@[i].component@[j] as int].is_empty());
    }
    record_abandoned(&e.abandoned, ceilings, fingerprints, stats);
    if e.interrupted {
        let groups: Vec<Vec<usize>> = Vec::new();
        assert(is_outcome(
            g,
            fingerprints@,
            ceilings,
            e.abandoned@,
            true,
            before,
            stats.clustering_abandoned.lines@,
            groups@,
        ));
        return groups;
    }
    assert forall|i: int, v: usize|
        0 <= i < e.cliques@.len() && #[trigger] e.cliques@[i]@.contains(v) implies v
        < fingerprints@.len() by {
        let k = found(e.cliques@)[i];
        assert(found(e.cliques@).contains(k));
        lemma_member_is_linked(g, k, v);
    }
    let lists = listed(&e.cliques, fingerprints);
    let groups = ranked(lists, fingerprints);
    proof {
        let order = choose|order: Seq<usize>| is_reordered(lists@, order, groups@);
        let cliques = found(e.cliques@);
        assert forall|i: int| 0 <= i < groups@.len() implies (
        #[trigger] groups@[i])@.no_duplicates() by {
            assert(order[i] < lists@.len());
        }
        assert forall|i: int| 0 <= i < groups@.len() implies is_sorted(
            (#[trigger] groups@[i])@,
            |a: usize, b: usize|
                text_le(fingerprints@[a as int].path@, fingerprints@[b as int].path@),
        ) by {
            assert(order[i] < lists@.len());
            let list = lists@[order[i] as int]@;
            assert(in_order(list, &ByPath { fps: fingerprints }));
            assert forall|x: int, y: int| 0 <= x < y < list.len() implies text_le(
                fingerprints@[list[x] as int].path@,
                fingerprints@[list[y] as int].path@,
            ) by {
                assert((ByPath { fps: fingerprints }).le(list[x], list[y]));
            }
        }
        assert forall|i: int, j: int| 0 <= i < j < groups@.len() implies (
        #[trigger] groups@[i])@.to_set() != (#[trigger] groups@[j])@.to_set() by {
            assert(order[i] < lists@.len() && order[j] < lists@.len());
            assert(order[i] != order[j]);
            assert(cliques[order[i] as int] != cliques[order[j] as int]);
        }
        assert forall|k: Set<usize>| #[trigger]
            is_reported(groups@, k) <==> is_maximal_clique(g, k) && k.len() > 1 && !is_dropped(
                e.abandoned@,
                k,
            ) by {
            lemma_reported(lists@, cliques, order, groups@, k);
        }
        assert(is_outcome(
            g,
            fingerprints@,
            ceilings,
            e.abandoned@,
            false,
            before,
            stats.clustering_abandoned.lines@,
            groups@,
        ));
    }
    groups
}

/// A member of a clique of two or more is linked to something.
proof fn lemma_member_is_linked(g: Seq<Set<usize>>, k: Set<usize>, v: usize)
    requires
        is_clique(g, k),
        k.finite(),
        k.len() > 1,
        k.contains(v),
    ensures
        v < g.len(),
        !g[v as int].is_empty(),
{
    let rest = k.remove(v);
    let w = rest.choose();
    assert(rest.len() > 0);
    assert(rest.contains(w));
    assert(g[v as int].contains(w));
}

/// The ceilings every run uses.
pub open spec fn shipped() -> Ceilings {
    Ceilings { budget: SEARCH_BUDGET_PER_COMPONENT, groups: MAX_GROUPS_PER_COMPONENT }
}

/// Group fingerprints into duplicate sets, given the pairs that matched.
///
/// Indices refer to positions in `fingerprints`. Within a group they are ordered
/// by path; the groups themselves are ordered largest first. A file that matched
/// nothing is in no group at all.
///
/// A component whose search hits one of the ceilings is dropped whole and gets a
/// line in the summary. `stop` answers whether the run has been interrupted; an
/// interrupted run reports no groups.
pub fn find_duplicate_groups<F: Fn() -> bool>(
    n: usize,
    edges: Vec<(usize, usize)>,
    fingerprints: &[VideoFingerprint],
    stats: &mut RunStats,
    stop: &F,
) -> (groups: Vec<Vec<usize>>)
    requires
        stop.requires(()),
        forall|k: int|
            0 <= k < edges@.len() ==> {
                &&& (#[trigger] edges@[k]).0 < n && edges@[k].0 < fingerprints@.len()
                &&& edges@[k].1 < n && edges@[k].1 < fingerprints@.len()
                &&& edges@[k].0 != edges@[k].1
            },
    ensures
        final(stats).delete_stale == old(stats).delete_stale,
        final(stats).delete_failed == old(stats).delete_failed,
        final(stats).report_write_failed == old(stats).report_write_failed,
        exists|abandoned: Seq<Abandoned>, interrupted: bool|
            is_honoured(stop, edges@.len() > 0, abandoned.len(), interrupted)
                && #[trigger] is_outcome(
                match_graph(n as nat, edges@),
                fingerprints@,
                shipped(),
                abandoned,
                interrupted,
                old(stats).clustering_abandoned.lines@,
                final(stats).clustering_abandoned.lines@,
                groups@,
            ),
{
    let ceilings = Ceilings::shipped();
    assert(ceilings == shipped());
    group_within(n, edges, fingerprints, stats, ceilings, stop)
}

/// Every two files in a group matched each other.
pub proof fn lemma_a_group_holds_only_matches(
    n: nat,
    edges: Seq<(usize, usize)>,
    fps: Seq<VideoFingerprint>,
    abandoned: Seq<Abandoned>,
    groups: Seq<Vec<usize>>,
    i: int,
    a: usize,
    b: usize,
)
    requires
        is_grouping(match_graph(n, edges), fps, abandoned, groups),
        0 <= i < groups.len(),
        groups[i]@.contains(a),
        groups[i]@.contains(b),
        a != b,
    ensures
        is_edge(edges, a, b),
{
    let k = groups[i]@.to_set();
    assert(is_reported(groups, k));
    assert(k.contains(a) && k.contains(b));
    assert(match_graph(n, edges)[a as int].contains(b));
}

/// No file outside a group matched all of the group.
pub proof fn lemma_a_group_is_maximal(
    n: nat,
    edges: Seq<(usize, usize)>,
    fps: Seq<VideoFingerprint>,
    abandoned: Seq<Abandoned>,
    groups: Seq<Vec<usize>>,
    i: int,
    w: usize,
)
    requires
        is_grouping(match_graph(n, edges), fps, abandoned, groups),
        0 <= i < groups.len(),
        w < n,
    ensures
        groups[i]@.len() > 1,
        exists|a: usize| #[trigger] groups[i]@.contains(a) && !is_edge(edges, w, a),
{
    let g = match_graph(n, edges);
    let k = groups[i]@.to_set();
    assert(is_reported(groups, k));
    groups[i]@.unique_seq_to_set();
    assert(!extends(g, k, w));
    let a = choose|a: usize| #[trigger] k.contains(a) && !g[w as int].contains(a);
    assert(groups[i]@.contains(a));
}

/// No group lies inside another.
pub proof fn lemma_no_group_holds_another(
    g: Seq<Set<usize>>,
    fps: Seq<VideoFingerprint>,
    abandoned: Seq<Abandoned>,
    groups: Seq<Vec<usize>>,
    i: int,
    j: int,
)
    requires
        is_grouping(g, fps, abandoned, groups),
        0 <= i < groups.len(),
        0 <= j < groups.len(),
        i != j,
    ensures
        !groups[i]@.to_set().subset_of(groups[j]@.to_set()),
{
    let a = groups[i]@.to_set();
    let b = groups[j]@.to_set();
    assert(is_reported(groups, a));
    assert(is_reported(groups, b));
    if a.subset_of(b) {
        if i < j {
            assert(groups[i]@.to_set() != groups[j]@.to_set());
        } else {
            assert(groups[j]@.to_set() != groups[i]@.to_set());
        }
        assert(!(b.subset_of(a))) by {
            if b.subset_of(a) {
                assert(a =~= b);
            }
        }
        let w = choose|w: usize| b.contains(w) && !a.contains(w);
        assert(extends(g, a, w)) by {
            assert forall|u: usize| #[trigger] a.contains(u) implies g[w as int].contains(u) by {
                assert(b.contains(u) && b.contains(w));
            }
        }
    }
}

/// Every clique lies inside a maximal one.
proof fn lemma_grows_to_maximal(g: Seq<Set<usize>>, k: Set<usize>) -> (m: Set<usize>)
    requires
        is_graph(g),
        k.finite(),
        is_clique(g, k),
    ensures
        is_maximal_clique(g, m),
        k.subset_of(m),
    decreases g.len() - k.len(),
{
    lemma_bounded_len(k, g.len());
    if exists|w: usize| extends(g, k, w) {
        let w = choose|w: usize| extends(g, k, w);
        let wider = k.insert(w);
        if k.contains(w) {
            assert(g[w as int].contains(w));
        }
        assert forall|u: usize, v: usize| #[trigger]
            wider.contains(u) && #[trigger] wider.contains(v) && u != v implies g[u as int].contains(
            v,
        ) by {
            if u == w {
                assert(k.contains(v));
            } else if v == w {
                assert(k.contains(u));
                assert(g[w as int].contains(u));
            } else {
                assert(k.contains(u) && k.contains(v));
            }
        }
        lemma_bounded_len(wider, g.len());
        lemma_grows_to_maximal(g, wider)
    } else {
        k
    }
}

/// Both ends of every match are reported side by side somewhere, unless their
/// component was abandoned.
pub proof fn lemma_every_match_is_reported(
    n: nat,
    edges: Seq<(usize, usize)>,
    fps: Seq<VideoFingerprint>,
    abandoned: Seq<Abandoned>,
    groups: Seq<Vec<usize>>,
    a: usize,
    b: usize,
)
    requires
        is_graph(match_graph(n, edges)),
        is_grouping(match_graph(n, edges), fps, abandoned, groups),
        a < n,
        is_edge(edges, a, b),
        forall|i: int|
            0 <= i < abandoned.len() ==> !(#[trigger] abandoned[i]).component@.contains(a),
    ensures
        exists|i: int|
            0 <= i < groups.len() && (#[trigger] groups[i])@.contains(a) && groups[i]@.contains(b),
{
    let g = match_graph(n, edges);
    assert(g[a as int].contains(b));
    assert(g[b as int].contains(a));
    let pair = set![a, b];
    assert(is_clique(g, pair));
    let m = lemma_grows_to_maximal(g, pair);
    assert(pair.contains(a) && pair.contains(b));
    assert(m.contains(a) && m.contains(b));
    assert(pair.len() == 2);
    vstd::set_lib::lemma_len_subset(pair, m);
    if is_dropped(abandoned, m) {
        let i = choose|i: int|
            0 <= i < abandoned.len() && m.subset_of((#[trigger] abandoned[i]).component@.to_set());
        assert(abandoned[i].component@.to_set().contains(a));
        assert(abandoned[i].component@.contains(a));
    }
    assert(is_reported(groups, m));
    let i = choose|i: int| 0 <= i < groups.len() && (#[trigger] groups[i])@.to_set() == m;
    assert(groups[i]@.to_set().contains(a) && groups[i]@.to_set().contains(b));
    assert(groups[i]@.contains(a) && groups[i]@.contains(b));
}

/// A component of up to sixteen files is never abandoned by the shipped ceilings.
pub proof fn lemma_a_small_component_is_never_abandoned(g: Seq<Set<usize>>, a: Abandoned)
    requires
        was_refused(g, shipped(), a),
    ensures
        a.component@.len() > 16,
{
    let m = a.component@.len();
    if m <= 16 {
        lemma_work_grows(m, m, 16, 16);
        vstd::arithmetic::power2::lemma2_to64();
        assert(pow2(16) == 65536);
        assert(crate::cliques::step_cost(16) == 529);
    }
}

/// A component with more groups than can be reported is abandoned whole: none of its
/// groups is reported, and it is listed once.
pub proof fn lemma_an_explosive_component_is_dropped_whole(
    g: Seq<Set<usize>>,
    fps: Seq<VideoFingerprint>,
    ceilings: Ceilings,
    abandoned: Seq<Abandoned>,
    before: Seq<String>,
    after: Seq<String>,
    groups: Seq<Vec<usize>>,
    c: Seq<usize>,
    list: Seq<Set<usize>>,
)
    requires
        is_graph(g),
        is_outcome(g, fps, ceilings, abandoned, false, before, after, groups),
        is_component(g, c),
        are_groups_in(g, c.to_set(), list),
        list.len() > ceilings.groups || list.len() > ceilings.budget,
    ensures
        exists|i: int|
            0 <= i < abandoned.len() && (#[trigger] abandoned[i]).component@.to_set() == c.to_set(),
        forall|i: int|
            0 <= i < groups.len() ==> (#[trigger] groups[i])@.to_set().disjoint(c.to_set()),
{
    let at = lemma_explosive_is_given_up(g, ceilings, abandoned, c, list);
    lemma_none_of_a_given_up_component(g, fps, abandoned, groups, c, at);
}

/// A component with more groups than can be reported is among those abandoned.
proof fn lemma_explosive_is_given_up(
    g: Seq<Set<usize>>,
    ceilings: Ceilings,
    abandoned: Seq<Abandoned>,
    c: Seq<usize>,
    list: Seq<Set<usize>>,
) -> (at: int)
    requires
        is_graph(g),
        is_searched(g, ceilings, abandoned),
        forall|i: int|
            0 <= i < abandoned.len() ==> was_refused(g, ceilings, #[trigger] abandoned[i]),
        is_component(g, c),
        are_groups_in(g, c.to_set(), list),
        list.len() > ceilings.groups || list.len() > ceilings.budget,
    ensures
        0 <= at < abandoned.len(),
        abandoned[at].component@.to_set() == c.to_set(),
{
    let whole = c.to_set();
    assert(!is_within(g, ceilings, whole));
    assert(is_dropped(abandoned, whole));
    let at = choose|i: int|
        0 <= i < abandoned.len() && whole.subset_of((#[trigger] abandoned[i]).component@.to_set());
    let other = abandoned[at].component@;
    assert(whole.contains(c[0]));
    assert(other.to_set().contains(c[0]));
    assert(was_refused(g, ceilings, abandoned[at]));
    assert(is_component(g, other));
    lemma_one_component(g, c, other, c[0]);
    at
}

/// No group reported has a member of an abandoned component.
proof fn lemma_none_of_a_given_up_component(
    g: Seq<Set<usize>>,
    fps: Seq<VideoFingerprint>,
    abandoned: Seq<Abandoned>,
    groups: Seq<Vec<usize>>,
    c: Seq<usize>,
    at: int,
)
    requires
        is_grouping(g, fps, abandoned, groups),
        is_component(g, c),
        0 <= at < abandoned.len(),
        abandoned[at].component@.to_set() == c.to_set(),
    ensures
        forall|i: int|
            0 <= i < groups.len() ==> (#[trigger] groups[i])@.to_set().disjoint(c.to_set()),
{
    let whole = c.to_set();
    assert forall|i: int| 0 <= i < groups.len() implies (#[trigger] groups[i])@.to_set().disjoint(
        whole,
    ) by {
        let k = groups[i]@.to_set();
        assert(is_reported(groups, k));
        assert(is_maximal_clique(g, k) && !is_dropped(abandoned, k));
        lemma_apart_from_dropped(g, abandoned, at, whole, k);
    }
}

/// A clique that is not inside an abandoned component shares nothing with it.
proof fn lemma_apart_from_dropped(
    g: Seq<Set<usize>>,
    abandoned: Seq<Abandoned>,
    at: int,
    whole: Set<usize>,
    k: Set<usize>,
)
    requires
        0 <= at < abandoned.len(),
        abandoned[at].component@.to_set() == whole,
        is_closed(g, whole),
        is_clique(g, k),
        !is_dropped(abandoned, k),
    ensures
        k.disjoint(whole),
{
    if !k.disjoint(whole) {
        let u = choose|u: usize| k.contains(u) && whole.contains(u);
        assert forall|w: usize| #[trigger] k.contains(w) implies whole.contains(w) by {
            if w != u {
                assert(g[u as int].contains(w));
            }
        }
        assert(k.subset_of(abandoned[at].component@.to_set()));
    }
}

/// What the search of a complete component costs, in closed form.
proof fn lemma_complete_work(n: nat)
    ensures
        2 * complete_work(n) == 3 * n * n + 5 * n + 2,
    decreases n,
{
    if n > 0 {
        let m = (n - 1) as nat;
        lemma_complete_work(m);
        assert(3 * m * m + 5 * m + 2 + 2 + 6 * n == 3 * n * n + 5 * n + 2) by (nonlinear_arith)
            requires
                n == m + 1,
        ;
    }
}

/// Files that all match each other, and nothing else, are one group: up to the five
/// thousand seven hundred and seventy-two of them whose search the shipped ceilings
/// allow.
pub proof fn lemma_identical_files_are_one_group(
    g: Seq<Set<usize>>,
    fps: Seq<VideoFingerprint>,
    abandoned: Seq<Abandoned>,
    groups: Seq<Vec<usize>>,
    c: Seq<usize>,
)
    requires
        is_graph(g),
        is_component(g, c),
        is_clique(g, c.to_set()),
        1 < c.len() <= 5772,
        forall|i: int|
            0 <= i < abandoned.len() ==> was_refused(g, shipped(), #[trigger] abandoned[i]),
        is_grouping(g, fps, abandoned, groups),
    ensures
        exists|i: int| 0 <= i < groups.len() && (#[trigger] groups[i])@.to_set() == c.to_set(),
        forall|i: int|
            0 <= i < groups.len() && !(#[trigger] groups[i])@.to_set().disjoint(c.to_set())
                ==> groups[i]@.to_set() == c.to_set(),
{
    let whole = c.to_set();
    c.unique_seq_to_set();
    assert(whole.contains(c[0]));
    assert forall|w: usize| !#[trigger] extends(g, whole, w) by {
        if extends(g, whole, w) {
            assert(g[w as int].contains(c[0]));
            assert(g[c[0] as int].contains(w));
            assert(whole.contains(w));
            assert(g[w as int].contains(w));
        }
    }
    assert(is_maximal_clique(g, whole));
    if is_dropped(abandoned, whole) {
        let i = choose|i: int|
            0 <= i < abandoned.len() && whole.subset_of(
                (#[trigger] abandoned[i]).component@.to_set(),
            );
        let a = abandoned[i];
        assert(was_refused(g, shipped(), a));
        assert(a.component@.to_set().contains(c[0]));
        lemma_one_component(g, c, a.component@, c[0]);
        a.component@.unique_seq_to_set();
        lemma_complete_work(c.len());
        let n = c.len();
        assert(3 * n * n + 5 * n + 2 <= 3 * 5772 * 5772 + 5 * 5772 + 2) by (nonlinear_arith)
            requires
                n <= 5772,
        ;
    }
    assert(is_reported(groups, whole));
    assert forall|i: int|
        0 <= i < groups.len() && !(#[trigger] groups[i])@.to_set().disjoint(
            whole,
        ) implies groups[i]@.to_set() == whole by {
        let k = groups[i]@.to_set();
        assert(is_reported(groups, k));
        let u = choose|u: usize| k.contains(u) && whole.contains(u);
        assert forall|w: usize| #[trigger] k.contains(w) implies whole.contains(w) by {
            if w != u {
                assert(g[u as int].contains(w));
            }
        }
        assert forall|w: usize| #[trigger] whole.contains(w) implies k.contains(w) by {
            if !k.contains(w) {
                assert(extends(g, k, w));
            }
        }
        assert(k =~= whole);
    }
}

/// No two of the files listed have the same path.
pub open spec fn paths_differ(fps: Seq<VideoFingerprint>) -> bool {
    forall|i: int, j: int|
        0 <= i < j < fps.len() ==> (#[trigger] fps[i]).path@ != (#[trigger] fps[j]).path@
}

/// Can a search of this component reach a ceiling: has it more groups than can be
/// reported, or cliques enough for their steps to cost more than the budget?
pub open spec fn reaches_ceiling(g: Seq<Set<usize>>, ceilings: Ceilings, c: Seq<usize>) -> bool {
    ran_out(g, ceilings.budget as nat, c) || exists|list: Seq<Set<usize>>| #[trigger]
        are_groups_in(g, c.to_set(), list) && list.len() > ceilings.groups
}

/// Where no component reaches a ceiling, nothing is abandoned: every maximal clique is
/// reported, and the summary has nothing to say.
pub proof fn lemma_nothing_is_abandoned_below_the_ceilings(
    g: Seq<Set<usize>>,
    fps: Seq<VideoFingerprint>,
    ceilings: Ceilings,
    abandoned: Seq<Abandoned>,
    before: Seq<String>,
    after: Seq<String>,
    groups: Seq<Vec<usize>>,
)
    requires
        is_outcome(g, fps, ceilings, abandoned, false, before, after, groups),
        forall|c: Seq<usize>| #[trigger] is_component(g, c) ==> !reaches_ceiling(g, ceilings, c),
    ensures
        abandoned.len() == 0,
        texts(after) == texts(before),
        forall|k: Set<usize>| #[trigger]
            is_reported(groups, k) <==> is_maximal_clique(g, k) && k.len() > 1,
{
    if abandoned.len() > 0 {
        let a = abandoned[0];
        assert(was_refused(g, ceilings, a));
        let list = choose|list: Seq<Set<usize>>| #[trigger]
            are_groups_in(g, a.component@.to_set(), list) && list.len() == a.found;
        assert(reaches_ceiling(g, ceilings, a.component@));
    }
    assert(texts(before) + abandoned_lines(fps, ceilings, abandoned) =~= texts(before));
}

/// The order, the direction and the number of repeats of matches make no difference:
/// lists of the same pairs give the same groups, in the same order.
pub proof fn lemma_the_same_pairs_give_the_same_groups(
    n: nat,
    some: Seq<(usize, usize)>,
    other: Seq<(usize, usize)>,
    fps: Seq<VideoFingerprint>,
    ceilings: Ceilings,
    first: (Seq<Abandoned>, Seq<String>, Seq<String>, Seq<Vec<usize>>),
    second: (Seq<Abandoned>, Seq<String>, Seq<String>, Seq<Vec<usize>>),
)
    requires
        forall|a: usize, b: usize| #[trigger] is_edge(some, a, b) <==> is_edge(other, a, b),
        n <= fps.len(),
        paths_differ(fps),
        forall|c: Seq<usize>| #[trigger]
            is_component(match_graph(n, some), c) ==> !reaches_ceiling(
                match_graph(n, some),
                ceilings,
                c,
            ),
        is_outcome(
            match_graph(n, some),
            fps,
            ceilings,
            first.0,
            false,
            first.1,
            first.2,
            first.3,
        ),
        is_outcome(
            match_graph(n, other),
            fps,
            ceilings,
            second.0,
            false,
            second.1,
            second.2,
            second.3,
        ),
    ensures
        match_graph(n, some) == match_graph(n, other),
        first.3.len() == second.3.len(),
        forall|i: int| 0 <= i < first.3.len() ==> (#[trigger] first.3[i])@ == second.3[i]@,
{
    let g = match_graph(n, some);
    let h = match_graph(n, other);
    assert forall|u: int| 0 <= u < n implies #[trigger] g[u] == h[u] by {
        assert(g[u] =~= h[u]);
    }
    assert(g =~= h);
    lemma_nothing_is_abandoned_below_the_ceilings(
        g,
        fps,
        ceilings,
        first.0,
        first.1,
        first.2,
        first.3,
    );
    lemma_nothing_is_abandoned_below_the_ceilings(
        g,
        fps,
        ceilings,
        second.0,
        second.1,
        second.2,
        second.3,
    );
    assert(first.0 =~= second.0);
    lemma_grouping_is_reproducible(g, fps, first.0, first.3, second.3);
}

/// Where the items that meet a condition stand.
proof fn lemma_filtered<T>(s: Seq<T>, keep: spec_fn(T) -> bool) -> (places: Seq<int>)
    ensures
        places.len() == s.filter(keep).len(),
        forall|i: int|
            0 <= i < places.len() ==> 0 <= #[trigger] places[i] < s.len() && s[places[i]]
                == s.filter(keep)[i] && keep(s[places[i]]),
        forall|i: int, j: int|
            0 <= i < j < places.len() ==> #[trigger] places[i] < #[trigger] places[j],
        forall|j: int| 0 <= j < s.len() && keep(#[trigger] s[j]) ==> places.contains(j),
    decreases s.len(),
{
    reveal(Seq::filter);
    if s.len() == 0 {
        Seq::empty()
    } else {
        let less = lemma_filtered(s.drop_last(), keep);
        let n = s.len() - 1;
        if keep(s.last()) {
            let more = less.push(n);
            assert forall|j: int| 0 <= j < s.len() && keep(#[trigger] s[j]) implies more.contains(
                j,
            ) by {
                if j < n {
                    assert(s.drop_last()[j] == s[j]);
                    assert(less.contains(j));
                    let i = choose|i: int| 0 <= i < less.len() && less[i] == j;
                    assert(more[i] == j);
                } else {
                    assert(more[less.len() as int] == j);
                }
            }
            more
        } else {
            assert forall|j: int| 0 <= j < s.len() && keep(#[trigger] s[j]) implies less.contains(
                j,
            ) by {
                assert(s.drop_last()[j] == s[j]);
            }
            less
        }
    }
}

/// A component is kept whole or dropped whole. What is reported under some ceilings is
/// what is reported under none, in the same order, without the groups of the components
/// abandoned: and of those, without any.
pub proof fn lemma_a_component_is_kept_or_dropped_whole(
    g: Seq<Set<usize>>,
    fps: Seq<VideoFingerprint>,
    ceilings: Ceilings,
    abandoned: Seq<Abandoned>,
    all: Seq<Vec<usize>>,
    some: Seq<Vec<usize>>,
)
    requires
        is_graph(g),
        g.len() <= fps.len(),
        paths_differ(fps),
        forall|i: int|
            0 <= i < abandoned.len() ==> was_refused(g, ceilings, #[trigger] abandoned[i]),
        is_grouping(g, fps, Seq::empty(), all),
        is_grouping(g, fps, abandoned, some),
    ensures
        lists_of(some) == lists_of(
            all.filter(|k: Vec<usize>| !is_dropped(abandoned, k@.to_set())),
        ),
        forall|i: int, k: Set<usize>|
            0 <= i < abandoned.len() && #[trigger] is_reported(some, k) ==> k.disjoint(
                (#[trigger] abandoned[i]).component@.to_set(),
            ),
{
    let keep = |k: Vec<usize>| !is_dropped(abandoned, k@.to_set());
    let kept = all.filter(keep);
    let places = lemma_filtered(all, keep);
    assert forall|i: int| 0 <= i < kept.len() implies (#[trigger] kept[i])@.no_duplicates()
        && is_sorted(
        kept[i]@,
        |a: usize, b: usize| text_le(fps[a as int].path@, fps[b as int].path@),
    ) by {
        assert(kept[i] == all[places[i]]);
    }
    assert forall|i: int, j: int| 0 <= i < j < kept.len() implies (#[trigger] kept[i])@.to_set()
        != (#[trigger] kept[j])@.to_set() && group_le(fps, kept[i]@, kept[j]@) by {
        assert(places[i] < places[j]);
        assert(kept[i] == all[places[i]] && kept[j] == all[places[j]]);
    }
    assert forall|k: Set<usize>| #[trigger] is_reported(kept, k) <==> is_maximal_clique(g, k)
        && k.len() > 1 && !is_dropped(abandoned, k) by {
        assert(is_reported(all, k) <==> is_maximal_clique(g, k) && k.len() > 1);
        if is_reported(kept, k) {
            let i = choose|i: int| 0 <= i < kept.len() && (#[trigger] kept[i])@.to_set() == k;
            assert(all[places[i]]@.to_set() == k);
            assert(keep(all[places[i]]));
        }
        if is_reported(all, k) && !is_dropped(abandoned, k) {
            let j = choose|j: int| 0 <= j < all.len() && (#[trigger] all[j])@.to_set() == k;
            assert(keep(all[j]));
            assert(places.contains(j));
            let i = choose|i: int| 0 <= i < places.len() && places[i] == j;
            assert(kept[i] == all[places[i]]);
        }
    }
    assert(is_grouping(g, fps, abandoned, kept));
    lemma_grouping_is_reproducible(g, fps, abandoned, some, kept);
    assert(lists_of(some) =~= lists_of(kept));
    assert forall|i: int, k: Set<usize>|
        0 <= i < abandoned.len() && #[trigger] is_reported(some, k) implies k.disjoint(
        (#[trigger] abandoned[i]).component@.to_set(),
    ) by {
        let c = abandoned[i].component@.to_set();
        assert(was_refused(g, ceilings, abandoned[i]));
        if !k.disjoint(c) {
            let u = choose|u: usize| k.contains(u) && c.contains(u);
            assert forall|w: usize| #[trigger] k.contains(w) implies c.contains(w) by {
                if w != u {
                    assert(g[u as int].contains(w));
                }
            }
            assert(k.subset_of(abandoned[i].component@.to_set()));
            assert(is_dropped(abandoned, k));
        }
    }
}

/// Ceilings that nothing but the width of a machine word limits.
pub open spec fn unlimited() -> Ceilings {
    Ceilings { budget: usize::MAX, groups: usize::MAX }
}

/// Whether the groups that `all` reports inside a component are all reported by `some`,
/// or none of them is.
pub open spec fn all_or_none(
    all: Seq<Vec<usize>>,
    some: Seq<Vec<usize>>,
    c: Set<usize>,
) -> bool {
    ||| forall|k: Set<usize>|
        k.subset_of(c) && #[trigger] is_reported(all, k) ==> is_reported(some, k)
    ||| forall|k: Set<usize>| k.subset_of(c) ==> !#[trigger] is_reported(some, k)
}

/// Ceilings take nothing away but components. Against a run under unlimited ceilings,
/// whose searches a machine word can count the cost of, a run under any ceilings reports
/// all groups of a component or none, the same groups in the same order but for those
/// of the components abandoned, and one more line in the summary for each of these.
pub proof fn lemma_ceilings_only_take_components_away(
    g: Seq<Set<usize>>,
    fps: Seq<VideoFingerprint>,
    ceilings: Ceilings,
    full: (Seq<Abandoned>, Seq<String>, Seq<String>, Seq<Vec<usize>>),
    part: (Seq<Abandoned>, Seq<String>, Seq<String>, Seq<Vec<usize>>),
)
    requires
        is_graph(g),
        g.len() <= fps.len(),
        paths_differ(fps),
        forall|c: Seq<usize>| #[trigger]
            is_component(g, c) ==> !ran_out(g, usize::MAX as nat, c),
        is_outcome(g, fps, unlimited(), full.0, false, full.1, full.2, full.3),
        is_outcome(g, fps, ceilings, part.0, false, part.1, part.2, part.3),
    ensures
        full.0.len() == 0,
        lists_of(part.3) == lists_of(
            full.3.filter(|k: Vec<usize>| !is_dropped(part.0, k@.to_set())),
        ),
        forall|c: Seq<usize>| #[trigger]
            is_component(g, c) ==> all_or_none(full.3, part.3, c.to_set()),
        part.2.len() == part.1.len() + part.0.len(),
        forall|i: int, j: int|
            0 <= i < j < part.0.len() ==> (#[trigger] part.0[i]).component@.to_set() != (
            #[trigger] part.0[j]).component@.to_set(),
{
    if full.0.len() > 0 {
        let a = full.0[0];
        assert(was_refused(g, unlimited(), a));
        assert(a.found <= usize::MAX);
    }
    assert(full.0 =~= Seq::<Abandoned>::empty());
    lemma_a_component_is_kept_or_dropped_whole(g, fps, ceilings, part.0, full.3, part.3);
    assert forall|c: Seq<usize>| #[trigger] is_component(g, c) implies all_or_none(
        full.3,
        part.3,
        c.to_set(),
    ) by {
        lemma_all_or_none(g, fps, ceilings, part.0, full.3, part.3, c);
    }
    assert(texts(part.2).len() == part.2.len());
    assert(texts(part.1).len() == part.1.len());
}

proof fn lemma_all_or_none(
    g: Seq<Set<usize>>,
    fps: Seq<VideoFingerprint>,
    ceilings: Ceilings,
    abandoned: Seq<Abandoned>,
    all: Seq<Vec<usize>>,
    some: Seq<Vec<usize>>,
    c: Seq<usize>,
)
    requires
        is_graph(g),
        forall|i: int|
            0 <= i < abandoned.len() ==> was_refused(g, ceilings, #[trigger] abandoned[i]),
        is_grouping(g, fps, Seq::empty(), all),
        is_grouping(g, fps, abandoned, some),
        is_component(g, c),
    ensures
        all_or_none(all, some, c.to_set()),
{
    let whole = c.to_set();
    if is_dropped(abandoned, whole) {
        let i = choose|i: int|
            0 <= i < abandoned.len() && whole.subset_of(
                (#[trigger] abandoned[i]).component@.to_set(),
            );
        assert forall|k: Set<usize>| k.subset_of(whole) implies !#[trigger] is_reported(
            some,
            k,
        ) by {
            assert(k.subset_of(abandoned[i].component@.to_set()));
            assert(is_dropped(abandoned, k));
        }
    } else {
        assert forall|k: Set<usize>|
            k.subset_of(whole) && #[trigger] is_reported(all, k) implies is_reported(some, k) by {
            assert(is_maximal_clique(g, k) && k.len() > 1);
            if is_dropped(abandoned, k) {
                let i = choose|i: int|
                    0 <= i < abandoned.len() && k.subset_of(
                        (#[trigger] abandoned[i]).component@.to_set(),
                    );
                let other = abandoned[i].component@;
                let u = k.choose();
                assert(k.contains(u));
                assert(whole.contains(u) && other.to_set().contains(u));
                assert(was_refused(g, ceilings, abandoned[i]));
                lemma_one_component(g, c, other, u);
            }
        }
    }
}

/// Groups are determined by the matches alone: two reports of one graph are the
/// same, group for group and member for member.
pub proof fn lemma_grouping_is_reproducible(
    g: Seq<Set<usize>>,
    fps: Seq<VideoFingerprint>,
    abandoned: Seq<Abandoned>,
    first: Seq<Vec<usize>>,
    second: Seq<Vec<usize>>,
)
    requires
        g.len() <= fps.len(),
        paths_differ(fps),
        is_grouping(g, fps, abandoned, first),
        is_grouping(g, fps, abandoned, second),
    ensures
        first.len() == second.len(),
        forall|i: int| 0 <= i < first.len() ==> (#[trigger] first[i])@ == second[i]@,
{
    let a = lists_of(first);
    let b = lists_of(second);
    let le = |x: Seq<usize>, y: Seq<usize>| group_le(fps, x, y);
    lemma_lists_match(g, fps, abandoned, first, second);
    lemma_lists_match(g, fps, abandoned, second, first);
    assert forall|i: int, j: int| 0 <= i < a.len() && 0 <= j < a.len() && i != j implies a[i]
        != a[j] by {
        if i < j {
            assert(first[i]@.to_set() != first[j]@.to_set());
        } else {
            assert(first[j]@.to_set() != first[i]@.to_set());
        }
    }
    assert forall|i: int, j: int| 0 <= i < b.len() && 0 <= j < b.len() && i != j implies b[i]
        != b[j] by {
        if i < j {
            assert(second[i]@.to_set() != second[j]@.to_set());
        } else {
            assert(second[j]@.to_set() != second[i]@.to_set());
        }
    }
    assert(a.to_set() =~= b.to_set());
    lemma_same_multiset(a, b);
    assert forall|x: Seq<usize>, y: Seq<usize>|
        a.contains(x) && a.contains(y) && #[trigger] le(x, y) && #[trigger] le(y, x) implies x
        == y by {
        lemma_texts_total(paths_of(fps, x), paths_of(fps, y));
        assert(paths_of(fps, x) == paths_of(fps, y));
        let i = choose|i: int| 0 <= i < a.len() && a[i] == x;
        let j = choose|j: int| 0 <= j < a.len() && a[j] == y;
        assert forall|l: int| 0 <= l < x.len() implies x[l] == y[l] by {
            assert(paths_of(fps, x)[l] == paths_of(fps, y)[l]);
            lemma_member_in_range(g, fps, abandoned, first, i, l);
            lemma_member_in_range(g, fps, abandoned, first, j, l);
            if x[l] < y[l] {
                assert(fps[x[l] as int].path@ != fps[y[l] as int].path@);
            } else if y[l] < x[l] {
                assert(fps[y[l] as int].path@ != fps[x[l] as int].path@);
            }
        }
        assert(x =~= y);
    }
    assert(is_sorted(a, le));
    assert(is_sorted(b, le));
    lemma_one_order(a, b, le);
    assert forall|i: int| 0 <= i < first.len() implies (#[trigger] first[i])@ == second[i]@ by {
        assert(a[i] == first[i]@);
        assert(b[i] == second[i]@);
    }
}

proof fn lemma_member_in_range(
    g: Seq<Set<usize>>,
    fps: Seq<VideoFingerprint>,
    abandoned: Seq<Abandoned>,
    groups: Seq<Vec<usize>>,
    i: int,
    l: int,
)
    requires
        is_grouping(g, fps, abandoned, groups),
        0 <= i < groups.len(),
        0 <= l < groups[i]@.len(),
    ensures
        groups[i]@[l] < g.len(),
{
    assert(is_reported(groups, groups[i]@.to_set()));
    assert(groups[i]@.to_set().contains(groups[i]@[l]));
}

/// The groups as plain lists.
pub open spec fn lists_of(groups: Seq<Vec<usize>>) -> Seq<Seq<usize>> {
    groups.map_values(|v: Vec<usize>| v@)
}

/// A group of one report stands in the other with its members in the same order.
proof fn lemma_lists_match(
    g: Seq<Set<usize>>,
    fps: Seq<VideoFingerprint>,
    abandoned: Seq<Abandoned>,
    first: Seq<Vec<usize>>,
    second: Seq<Vec<usize>>,
)
    requires
        g.len() <= fps.len(),
        paths_differ(fps),
        is_grouping(g, fps, abandoned, first),
        is_grouping(g, fps, abandoned, second),
    ensures
        forall|x: Seq<usize>|
            lists_of(first).contains(x) ==> #[trigger] lists_of(second).contains(x),
{
    let a = lists_of(first);
    let b = lists_of(second);
    let le = |x: usize, y: usize| text_le(fps[x as int].path@, fps[y as int].path@);
    assert forall|x: Seq<usize>| a.contains(x) implies #[trigger] b.contains(x) by {
        let i = choose|i: int| 0 <= i < a.len() && a[i] == x;
        let k = first[i]@.to_set();
        assert(is_reported(first, k));
        assert(is_reported(second, k));
        let j = choose|j: int| 0 <= j < second.len() && (#[trigger] second[j])@.to_set() == k;
        let y = second[j]@;
        lemma_same_multiset(x, y);
        assert(is_sorted(x, le)) by {
            assert(is_sorted(first[i]@, le));
        }
        assert(is_sorted(y, le)) by {
            assert(is_sorted(second[j]@, le));
        }
        assert forall|u: usize, v: usize|
            x.contains(u) && x.contains(v) && #[trigger] le(u, v) && #[trigger] le(v, u) implies u
            == v by {
            lemma_text_total(fps[u as int].path@, fps[v as int].path@);
            let p = choose|p: int| 0 <= p < x.len() && x[p] == u;
            let q = choose|q: int| 0 <= q < x.len() && x[q] == v;
            lemma_member_in_range(g, fps, abandoned, first, i, p);
            lemma_member_in_range(g, fps, abandoned, first, i, q);
            if u < v {
                assert(fps[u as int].path@ != fps[v as int].path@);
            } else if v < u {
                assert(fps[v as int].path@ != fps[u as int].path@);
            }
        }
        lemma_one_order(x, y, le);
        assert(b[j] == x);
    }
}

} // verus!
