//! What grouping the matches promises of the order of a report, and of its groups over
//! the pairs that matched.

use crate::cliques::{graph_of, intersection_cost, is_graph, Ceilings, Halt};
use crate::clustering::{
    abandoned_detail, is_edge, is_grouping, is_outcome, lemma_a_group_holds_only_matches,
    lemma_a_group_is_maximal, lemma_every_match_is_reported, match_graph, paths_of,
};
use crate::enumeration::{
    components, is_component, is_walk, lemma_walk_stays, placed, reaches, was_refused, Abandoned,
};
use crate::fingerprint::VideoFingerprint;
use crate::paths::common_parent;
use crate::text::{lemma_text_total, number, text_le, text_standing, texts, texts_le, Standing};
use std::collections::HashSet;
use vstd::arithmetic::power2::pow2;
use vstd::prelude::*;

verus! {

/// Whether two files are one of the pairs that matched, either way round.
pub open spec fn are_paired(edges: Seq<(usize, usize)>, a: usize, b: usize) -> bool {
    exists|k: int|
        0 <= k < edges.len() && ((#[trigger] edges[k]) == (a, b) || edges[k] == (b, a))
}

proof fn lemma_paired(edges: Seq<(usize, usize)>, a: usize, b: usize)
    ensures
        is_edge(edges, a, b) <==> are_paired(edges, a, b),
{
    if edges.contains((a, b)) {
        let k = choose|k: int| 0 <= k < edges.len() && edges[k] == (a, b);
        assert(edges[k] == (a, b));
    }
    if edges.contains((b, a)) {
        let k = choose|k: int| 0 <= k < edges.len() && edges[k] == (b, a);
        assert(edges[k] == (b, a));
    }
    if are_paired(edges, a, b) {
        let k = choose|k: int|
            0 <= k < edges.len() && ((#[trigger] edges[k]) == (a, b) || edges[k] == (b, a));
        assert(edges.contains(edges[k]));
    }
}

/// Any two members of a group are a pair that matched; a file outside it is no pair with
/// at least one of its members; and both files of every pair stand together in some
/// group, unless they were given up together.
pub proof fn lemma_groups_are_of_pairs(
    n: nat,
    edges: Seq<(usize, usize)>,
    fps: Seq<VideoFingerprint>,
    abandoned: Seq<Abandoned>,
    groups: Seq<Vec<usize>>,
    i: int,
    a: usize,
    b: usize,
)
    requires
        is_graph(match_graph(n, edges)),
        is_grouping(match_graph(n, edges), fps, abandoned, groups),
        0 <= i < groups.len(),
        a < n,
        a != b,
    ensures
        groups[i]@.contains(a) && groups[i]@.contains(b) ==> are_paired(edges, a, b),
        !groups[i]@.contains(a) ==> exists|c: usize| #[trigger]
            groups[i]@.contains(c) && !are_paired(edges, a, c),
        are_paired(edges, a, b) && (forall|j: int|
            0 <= j < abandoned.len() ==> !(#[trigger] abandoned[j]).component@.contains(a))
            ==> exists|j: int|
            0 <= j < groups.len() && (#[trigger] groups[j])@.contains(a) && groups[j]@.contains(b),
{
    lemma_paired(edges, a, b);
    if groups[i]@.contains(a) && groups[i]@.contains(b) {
        lemma_a_group_holds_only_matches(n, edges, fps, abandoned, groups, i, a, b);
    }
    lemma_a_group_is_maximal(n, edges, fps, abandoned, groups, i, a);
    let c = choose|c: usize| #[trigger] groups[i]@.contains(c) && !is_edge(edges, a, c);
    lemma_paired(edges, a, c);
    if are_paired(edges, a, b) && (forall|j: int|
        0 <= j < abandoned.len() ==> !(#[trigger] abandoned[j]).component@.contains(a)) {
        lemma_every_match_is_reported(n, edges, fps, abandoned, groups, a, b);
    }
}

/// The members of a group stand in the order of their paths.
pub proof fn lemma_members_stand_by_path(
    g: Seq<Set<usize>>,
    fps: Seq<VideoFingerprint>,
    abandoned: Seq<Abandoned>,
    groups: Seq<Vec<usize>>,
    i: int,
    j: int,
    k: int,
    first: &str,
    second: &str,
    standing: Standing,
)
    requires
        is_grouping(g, fps, abandoned, groups),
        0 <= i < groups.len(),
        0 <= j < k < groups[i]@.len(),
        first@ == fps[groups[i]@[j] as int].path@,
        second@ == fps[groups[i]@[k] as int].path@,
        call_ensures(text_standing, (first, second), standing),
    ensures
        groups[i]@[j] != groups[i]@[k],
        standing != Standing::After,
{
    let le = |a: usize, b: usize| text_le(fps[a as int].path@, fps[b as int].path@);
    assert(groups[i]@.no_duplicates());
    assert(crate::ordering::is_sorted(groups[i]@, le));
    assert(le(groups[i]@[j], groups[i]@[k]));
    lemma_text_total(first@, second@);
}

/// Larger groups come first. Of two as large, the one comes first whose path does, at the
/// first place that their paths differ.
pub proof fn lemma_larger_groups_come_first(
    g: Seq<Set<usize>>,
    fps: Seq<VideoFingerprint>,
    abandoned: Seq<Abandoned>,
    groups: Seq<Vec<usize>>,
    i: int,
    j: int,
    k: int,
    first: &str,
    second: &str,
    standing: Standing,
)
    requires
        is_grouping(g, fps, abandoned, groups),
        0 <= i < j < groups.len(),
        groups[i]@.len() == groups[j]@.len() ==> {
            &&& 0 <= k < groups[i]@.len()
            &&& forall|m: int|
                0 <= m < k ==> fps[#[trigger] groups[i]@[m] as int].path@
                    == fps[groups[j]@[m] as int].path@
            &&& first@ == fps[groups[i]@[k] as int].path@
            &&& second@ == fps[groups[j]@[k] as int].path@
            &&& call_ensures(text_standing, (first, second), standing)
        },
    ensures
        groups[i]@.len() >= groups[j]@.len(),
        groups[i]@.len() == groups[j]@.len() ==> standing != Standing::After,
{
    let (a, b) = (paths_of(fps, groups[i]@), paths_of(fps, groups[j]@));
    if groups[i]@.len() == groups[j]@.len() {
        assert(texts_le(a, b));
        assert forall|m: int| 0 <= m < k implies a[m] == b[m] by {
            assert(fps[groups[i]@[m] as int].path@ == fps[groups[j]@[m] as int].path@);
        }
        lemma_first_unlike(a, b, k);
        lemma_text_total(first@, second@);
    }
}

proof fn lemma_first_unlike(a: Seq<Seq<char>>, b: Seq<Seq<char>>, k: int)
    requires
        texts_le(a, b),
        0 <= k < a.len(),
        a.len() == b.len(),
        forall|m: int| 0 <= m < k ==> a[m] == b[m],
    ensures
        a[k] == b[k] || text_le(a[k], b[k]),
    decreases k,
{
    if k > 0 {
        let (p, q) = (a.drop_first(), b.drop_first());
        assert(a[0] == b[0]);
        assert forall|m: int| 0 <= m < k - 1 implies p[m] == q[m] by {
            assert(a[m + 1] == b[m + 1]);
        }
        lemma_first_unlike(p, q, k - 1);
    }
}

/// Every run gives up a component past fifty million steps or a hundred thousand groups.
pub proof fn lemma_what_a_run_gives_up_at(c: Ceilings)
    requires
        call_ensures(Ceilings::shipped, (), c),
    ensures
        c.budget == 50_000_000,
        c.groups == 100_000,
{
}

/// What is said of a component that was given up counts its files, says what stopped the
/// search, and names the folder that all of them share where there is one.
pub proof fn lemma_what_is_said_of_a_component_given_up(
    component: &Vec<usize>,
    reason: Halt,
    found: usize,
    ceilings: Ceilings,
    fps: &[VideoFingerprint],
    line: String,
    n: String,
    why: String,
    paths: &Vec<String>,
    folder: Option<String>,
)
    requires
        call_ensures(abandoned_detail, (component, reason, found, ceilings, fps), line),
        call_ensures(number, (component@.len() as u64,), n),
        call_ensures(Halt::ceiling, (&reason, found, ceilings), why),
        paths@.len() == component@.len(),
        forall|i: int|
            0 <= i < paths@.len() ==> (#[trigger] paths@[i])@ == fps@[component@[i] as int].path@,
        call_ensures(common_parent, (paths,), folder),
    ensures
        folder is None ==> line@ == n@ + " file(s) linked too densely to group -- "@ + why@,
        folder matches Some(f) ==> line@ == n@ + " file(s) linked too densely to group -- "@ + why@
            + "; all under "@ + f@,
{
    assert(texts(paths@) =~= paths_of(fps@, component@)) by {
        assert forall|i: int| 0 <= i < paths@.len() implies texts(paths@)[i] == paths_of(
            fps@,
            component@,
        )[i] by {
            assert(paths@[i]@ == fps@[component@[i] as int].path@);
        }
    }
    assert(component.len() == component@.len());
}

/// Why a search was given up: past its work, with how much it had found; past the groups
/// there may be, with how many that is; or as the run was stopped.
pub proof fn lemma_what_is_said_of_a_ceiling(
    reason: Halt,
    found: usize,
    ceilings: Ceilings,
    why: String,
    so_far: String,
    most: String,
)
    requires
        call_ensures(Halt::ceiling, (&reason, found, ceilings), why),
        call_ensures(number, (found as u64,), so_far),
        call_ensures(number, (ceilings.groups as u64,), most),
    ensures
        reason is Budget ==> why@ == "the search for groups ran past its work ceiling, with "@
            + so_far@ + " found so far"@,
        reason is Groups ==> why@ == "they form more than "@ + most@
            + " overlapping groups, which is more than can be reported"@,
        reason is Interrupted ==> why@ == "the run was interrupted"@,
{
    assert(found as nat == (found as u64) as nat);
    assert(ceilings.groups as nat == (ceilings.groups as u64) as nat);
}

/// No link leaves a component, and it holds nothing but what links lead to: a set that no
/// link leaves holds all of a component or none of it.
pub proof fn lemma_a_component_is_what_links_lead_to(
    adjacency: &[HashSet<usize>],
    parts: Vec<Vec<usize>>,
    k: int,
    island: Set<usize>,
    u: usize,
    v: usize,
)
    requires
        call_ensures(components, (adjacency,), parts),
        is_graph(graph_of(adjacency@)),
        forall|a: usize, b: usize|
            a < adjacency@.len() && #[trigger] island.contains(a) && (
            #[trigger] adjacency@[a as int]@.contains(b)) ==> island.contains(b),
        0 <= k < parts@.len(),
        parts@[k]@.contains(u),
    ensures
        u < adjacency@.len(),
        adjacency@[u as int]@.contains(v) ==> parts@[k]@.contains(v),
        parts@[k]@.contains(v) && island.contains(u) ==> island.contains(v),
{
    let g = graph_of(adjacency@);
    let c = parts@[k]@;
    assert(is_component(g, c));
    let i = choose|i: int| 0 <= i < c.len() && c[i] == u;
    assert(c.to_set().contains(u));
    assert(g[u as int] == adjacency@[u as int]@);
    if adjacency@[u as int]@.contains(v) {
        assert(c.to_set().contains(v));
    }
    if c.contains(v) && island.contains(u) {
        let inside = Set::new(|x: usize| island.contains(x) && x < g.len());
        assert forall|a: usize, b: usize|
            #![trigger inside.contains(a), g[a as int].contains(b)]
            inside.contains(a) && g[a as int].contains(b) implies inside.contains(b) by {
            assert(g[a as int] == adjacency@[a as int]@);
        }
        let j = choose|j: int| 0 <= j < c.len() && c[j] == v;
        assert(reaches(g, c[0], c[i]) && reaches(g, c[0], c[j]));
        let to_u = choose|w: Seq<usize>| #[trigger]
            is_walk(g, w) && w[0] == c[0] && w.last() == c[i];
        let to_v = choose|w: Seq<usize>| #[trigger]
            is_walk(g, w) && w[0] == c[0] && w.last() == c[j];
        lemma_walk_stays(g, inside, to_u);
        lemma_walk_stays(g, inside, to_v);
    }
}

/// Every file with a link is in one component, and in one only; a file without is in none.
/// The components come by their first file, which is the least of each.
pub proof fn lemma_every_linked_file_has_one_component(
    adjacency: &[HashSet<usize>],
    parts: Vec<Vec<usize>>,
    k: int,
    l: int,
    v: usize,
)
    requires
        call_ensures(components, (adjacency,), parts),
    ensures
        (exists|j: int| 0 <= j < parts@.len() && (#[trigger] parts@[j])@.contains(v)) <==> (v
            < adjacency@.len() && exists|b: usize| #[trigger] adjacency@[v as int]@.contains(b)),
        0 <= k < parts@.len() && parts@[k]@.contains(v) ==> parts@[k]@[0] <= v,
        0 <= k < l < parts@.len() ==> !(parts@[k]@.contains(v) && parts@[l]@.contains(v))
            && parts@[k]@[0] < parts@[l]@[0],
{
    assert(placed(parts@, v) <==> v < adjacency@.len() && !adjacency@[v as int]@.is_empty());
    if v < adjacency@.len() {
        let s = adjacency@[v as int]@;
        if !s.is_empty() {
            assert(s.contains(s.choose())) by {
                if forall|b: usize| !s.contains(b) {
                    assert(s =~= Set::empty());
                }
            }
        }
        if exists|b: usize| s.contains(b) {
            assert(!s.is_empty());
        }
    }
    if 0 <= k < parts@.len() && parts@[k]@.contains(v) {
        let j = choose|j: int| 0 <= j < parts@[k]@.len() && parts@[k]@[j] == v;
        assert(parts@[k]@[0] <= parts@[k]@[j]);
    }
    if 0 <= k < l < parts@.len() && parts@[k]@.contains(v) {
        assert(parts@[k]@.to_set().contains(v));
        assert(parts@[k]@.to_set().disjoint(parts@[l]@.to_set()));
        if parts@[l]@.contains(v) {
            assert(parts@[l]@.to_set().contains(v));
        }
    }
}

/// A component is given up for one of two causes. Either more groups were found in it than
/// may be reported, or its search can need more probes than it was allowed; and never one
/// without a pair that matched, nor a part of one.
pub proof fn lemma_a_component_is_given_up_for_cause(
    n: nat,
    edges: Seq<(usize, usize)>,
    fps: Seq<VideoFingerprint>,
    ceilings: Ceilings,
    abandoned: Seq<Abandoned>,
    interrupted: bool,
    before: Seq<String>,
    after: Seq<String>,
    groups: Seq<Vec<usize>>,
    i: int,
    a: usize,
    b: usize,
)
    requires
        is_graph(match_graph(n, edges)),
        is_outcome(
            match_graph(n, edges),
            fps,
            ceilings,
            abandoned,
            interrupted,
            before,
            after,
            groups,
        ),
        0 <= i < abandoned.len(),
        abandoned[i].component@.contains(a),
    ensures
        match abandoned[i].reason {
            Halt::Groups => abandoned[i].found > ceilings.groups && abandoned[i].found
                <= ceilings.groups + 1,
            Halt::Budget => {
                let m = abandoned[i].component@.len();
                ceilings.budget < (2 * m * m + m + 1) * pow2(m)
            },
            Halt::Interrupted => false,
        },
        are_paired(edges, a, b) ==> abandoned[i].component@.contains(b),
        exists|c: usize| are_paired(edges, a, c) && abandoned[i].component@.contains(c),
{
    let g = match_graph(n, edges);
    let c = abandoned[i].component@;
    assert(was_refused(g, ceilings, abandoned[i]));
    assert(is_component(g, c));
    let k = choose|k: int| 0 <= k < c.len() && c[k] == a;
    assert(c.to_set().contains(a));
    assert(!g[c[k] as int].is_empty());
    lemma_paired(edges, a, b);
    if are_paired(edges, a, b) {
        assert(g[a as int].contains(b));
        assert(c.to_set().contains(b));
    }
    let d = g[a as int].choose();
    assert(g[a as int].contains(d)) by {
        if forall|x: usize| !g[a as int].contains(x) {
            assert(g[a as int] =~= Set::empty());
        }
    }
    assert(is_edge(edges, a, d));
    lemma_paired(edges, a, d);
    assert(c.to_set().contains(d));
    assert(are_paired(edges, a, d) && c.contains(d));
}

/// Intersecting two sets is charged by the smaller of them: a probe for each of its
/// members, whichever of the two it is.
pub proof fn lemma_an_intersection_is_charged_by_the_smaller_set(
    a: &HashSet<usize>,
    b: &HashSet<usize>,
    cost: usize,
    back: usize,
)
    requires
        call_ensures(intersection_cost, (a, b), cost),
        call_ensures(intersection_cost, (b, a), back),
    ensures
        cost <= a@.len() && cost <= b@.len(),
        cost == a@.len() || cost == b@.len(),
        back == cost,
{
}

} // verus!
