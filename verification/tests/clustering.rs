//! Groups of mutual matches, on graphs whose maximal cliques are known.

use std::collections::HashSet;
use vid_fp::cliques::{bron_kerbosch, choose_pivot, intersection_cost, Ceilings, Halt, Search};
use vid_fp::clustering::{abandoned_detail, find_duplicate_groups, group_within};
use vid_fp::enumeration::{components, enumerate};
use vid_fp::fingerprint::VideoFingerprint;
use vid_fp::paths::common_parent;
use vid_fp::quantity::{Rate, Seconds};
use vid_fp::stats::RunStats;

/// The folder `mock_library` puts its files in.
const MOCK_DIR: &str = "/library";

fn never() -> bool {
    false
}

fn paths_of(paths: &[&str]) -> Vec<String> {
    paths.iter().map(|p| p.to_string()).collect()
}

fn mock_fingerprint(path: &str) -> VideoFingerprint {
    VideoFingerprint {
        path: path.to_string(),
        valid_hashes: vec![],
        valid_t_start: vec![],
        valid_t_end: vec![],
        total_ms: 100_000,
        width: 1920,
        height: 1080,
        duration: Seconds::from_ms(10_000),
        file_size: 1024,
        codec: "h264".to_string(),
        frame_rate: Rate::from_fraction(30, 1),
    }
}

/// `n` fingerprints whose paths sort in index order.
fn mock_library(n: usize) -> Vec<VideoFingerprint> {
    (0..n)
        .map(|i| mock_fingerprint(&format!("{}/{:04}.mp4", MOCK_DIR, i)))
        .collect()
}

fn groups_of(
    n: usize,
    edges: Vec<(usize, usize)>,
    fps: &[VideoFingerprint],
) -> Vec<Vec<usize>> {
    let mut stats = RunStats::default();
    let groups = find_duplicate_groups(n, edges, fps, &mut stats, &never);
    assert_eq!(
        stats.clustering_abandoned.count(),
        0,
        "this graph is small enough to enumerate completely"
    );
    groups
}

fn adjacency_of(n: usize, edges: &[(usize, usize)]) -> Vec<HashSet<usize>> {
    let mut adjacency: Vec<HashSet<usize>> = vec![HashSet::new(); n];
    for &(i, j) in edges {
        adjacency[i].insert(j);
        adjacency[j].insert(i);
    }
    adjacency
}

#[test]
fn test_find_duplicate_groups_simple_clique() {
    let fps = vec![
        mock_fingerprint("a.mp4"),
        mock_fingerprint("b.mp4"),
        mock_fingerprint("c.mp4"),
    ];

    let edges = vec![(0, 1), (1, 2), (0, 2)];

    let groups = groups_of(3, edges, &fps);

    assert_eq!(groups.len(), 1, "Should find exactly one group");
    assert_eq!(groups[0].len(), 3, "Group should contain all 3 videos");

    assert_eq!(groups[0], vec![0, 1, 2]);
}

#[test]
fn test_find_duplicate_groups_disjoint_sets() {
    let fps = vec![
        mock_fingerprint("a.mp4"),
        mock_fingerprint("b.mp4"),
        mock_fingerprint("c.mp4"),
        mock_fingerprint("d.mp4"),
        mock_fingerprint("e.mp4"),
    ];

    let edges = vec![(0, 1), (2, 3)];

    let groups = groups_of(5, edges, &fps);

    assert_eq!(groups.len(), 2, "Should find exactly two groups");
    assert!(groups.contains(&vec![0, 1]));
    assert!(groups.contains(&vec![2, 3]));
}

#[test]
fn test_a_partially_linked_file_is_never_absorbed_into_a_group() {
    let fps = mock_library(4);
    let edges = vec![(0, 1), (0, 2), (1, 2), (0, 3), (1, 3)];

    let groups = groups_of(4, edges, &fps);

    assert_eq!(
        groups,
        vec![vec![0, 1, 2], vec![0, 1, 3]],
        "the two maximal cliques must be reported separately"
    );
    for group in &groups {
        assert!(
            !(group.contains(&2) && group.contains(&3)),
            "files that never matched must never share a group"
        );
    }
}

#[test]
fn test_a_chain_does_not_collapse_into_one_group() {
    let fps = mock_library(3);
    let groups = groups_of(3, vec![(0, 1), (1, 2)], &fps);

    assert_eq!(groups, vec![vec![0, 1], vec![1, 2]]);
}

#[test]
fn test_overlapping_cliques_are_both_reported() {
    let fps = mock_library(5);
    let edges = vec![(0, 1), (0, 2), (1, 2), (2, 3), (2, 4), (3, 4)];

    let groups = groups_of(5, edges, &fps);

    assert_eq!(groups, vec![vec![0, 1, 2], vec![2, 3, 4]]);
}

#[test]
fn test_every_group_is_a_complete_subgraph() {
    let fps = mock_library(7);
    let edges = vec![
        (0, 1),
        (0, 2),
        (1, 2),
        (2, 3),
        (2, 4),
        (3, 4),
        (4, 5),
        (0, 3),
    ];

    let groups = groups_of(7, edges.clone(), &fps);
    let adjacency = adjacency_of(7, &edges);

    assert!(!groups.is_empty(), "this graph clearly has duplicates");

    for group in &groups {
        assert!(group.len() > 1, "a group of one is not a duplicate set");
        assert!(!group.contains(&6), "an unmatched file must not be grouped");

        for (pos, &a) in group.iter().enumerate() {
            for &b in &group[pos + 1..] {
                assert!(
                    adjacency[a].contains(&b),
                    "{:?} contains the unmatched pair ({}, {})",
                    group,
                    a,
                    b
                );
            }
        }
    }

    for (a, b) in edges {
        assert!(
            groups.iter().any(|g| g.contains(&a) && g.contains(&b)),
            "({}, {}) matched but appear in no group together",
            a,
            b
        );
    }
}

#[test]
fn test_unmatched_files_cost_nothing() {
    let fps = mock_library(1000);
    let groups = groups_of(1000, vec![(10, 20), (20, 30)], &fps);

    assert_eq!(groups, vec![vec![10, 20], vec![20, 30]]);
}

#[test]
fn test_a_repeated_edge_does_not_duplicate_a_member() {
    let fps = mock_library(3);
    let groups = groups_of(3, vec![(0, 1), (1, 0), (0, 1), (1, 2)], &fps);

    assert_eq!(groups, vec![vec![0, 1], vec![1, 2]]);
}

#[test]
fn test_output_is_reproducible_despite_hashset_iteration_order() {
    let fps = mock_library(8);
    let edges = vec![(0, 1), (0, 2), (1, 2), (3, 4), (5, 6)];

    let first = groups_of(8, edges.clone(), &fps);
    let second = groups_of(8, edges, &fps);

    assert_eq!(first, second, "two identical runs must report identically");
    assert_eq!(
        first,
        vec![vec![0, 1, 2], vec![3, 4], vec![5, 6]],
        "largest first, then by member paths"
    );
}

#[test]
fn test_no_edges_means_no_groups() {
    let fps = mock_library(4);
    assert!(groups_of(4, vec![], &fps).is_empty());
}


fn all_edges_except(n: usize, missing: &[(usize, usize)]) -> Vec<(usize, usize)> {
    (0..n)
        .flat_map(|a| ((a + 1)..n).map(move |b| (a, b)))
        .filter(|pair| !missing.contains(pair))
        .collect()
}

fn moon_moser(parts: usize) -> (usize, Vec<(usize, usize)>) {
    let n = parts * 3;
    let missing: Vec<(usize, usize)> = (0..parts)
        .flat_map(|p| {
            let base = p * 3;
            [(base, base + 1), (base, base + 2), (base + 1, base + 2)]
        })
        .collect();
    (n, all_edges_except(n, &missing))
}

#[test]
fn test_a_component_that_outruns_its_budget_is_dropped_whole_and_reported() {
    let (n, edges) = moon_moser(20);
    let fps = mock_library(n);
    let mut stats = RunStats::default();

    let groups = group_within(
        n,
        edges,
        &fps,
        &mut stats,
        Ceilings { budget: 10_000, groups: usize::MAX },
        &never,
    );

    assert!(groups.is_empty(), "a partial enumeration must not be reported");
    assert_eq!(stats.clustering_abandoned.count(), 1, "and it must be reported as a problem");
    assert!(stats.had_problems(), "so the run exits non-zero");
}

#[test]
fn test_the_group_ceiling_drops_the_component_too() {
    let (n, edges) = moon_moser(3);
    let fps = mock_library(n);
    let mut stats = RunStats::default();

    let groups = group_within(
        n,
        edges.clone(),
        &fps,
        &mut stats,
        Ceilings { budget: usize::MAX, groups: 5 },
        &never,
    );

    assert!(groups.is_empty());
    assert_eq!(stats.clustering_abandoned.count(), 1);

    let mut roomy = RunStats::default();
    let full = group_within(n, edges, &fps, &mut roomy, Ceilings::shipped(), &never);
    assert_eq!(full.len(), 27);
    assert_eq!(roomy.clustering_abandoned.count(), 0);
}

#[test]
fn test_only_the_dense_component_is_lost() {
    let (dense_n, dense_edges) = moon_moser(20);
    let fps = mock_library(dense_n + 3);
    let mut stats = RunStats::default();

    let mut edges = dense_edges;
    edges.push((dense_n, dense_n + 1));
    edges.push((dense_n + 1, dense_n + 2));

    let groups = group_within(
        dense_n + 3,
        edges,
        &fps,
        &mut stats,
        Ceilings { budget: 10_000, groups: usize::MAX },
        &never,
    );

    assert_eq!(
        groups,
        vec![vec![dense_n, dense_n + 1], vec![dense_n + 1, dense_n + 2]],
        "the honest component is reported exactly as it would have been alone"
    );
    assert_eq!(stats.clustering_abandoned.count(), 1);
}

#[test]
fn test_the_problem_line_names_a_folder_and_a_count() {
    let (n, edges) = moon_moser(20);
    let fps = mock_library(n);
    let mut stats = RunStats::default();

    group_within(n, edges, &fps, &mut stats, Ceilings { budget: 10_000, groups: usize::MAX }, &never);

    let lines = stats.clustering_abandoned.samples();
    assert_eq!(lines.len(), 1);
    assert!(lines[0].contains(&format!("{} file(s)", n)), "got: {}", lines[0]);
    assert!(lines[0].ends_with(&format!("all under {}", MOCK_DIR)), "got: {}", lines[0]);
    assert!(!lines[0].contains(".mp4"), "no member is named any more: {}", lines[0]);
}

#[test]
fn test_the_shared_folder_narrows_to_the_part_of_the_library_that_is_dense() {
    let paths = [
        "/lib/season1/a.mkv",
        "/lib/season2/b.mkv",
        "/lib/season2/extras/c.mkv",
        "/lib/season2/d.mkv",
    ];
    let fps: Vec<VideoFingerprint> = paths.iter().map(|p| mock_fingerprint(p)).collect();

    let dense = vec![1usize, 2, 3];
    let line = abandoned_detail(&dense, Halt::Groups, 0, Ceilings::shipped(), &fps);
    assert!(line.ends_with("all under /lib/season2"), "got: {}", line);

    let whole = vec![0usize, 1, 2, 3];
    let line = abandoned_detail(&whole, Halt::Groups, 0, Ceilings::shipped(), &fps);
    assert!(line.ends_with("all under /lib"), "got: {}", line);
}

#[test]
fn test_the_shared_folder_is_compared_a_path_component_at_a_time() {
    let shared = common_parent(&paths_of(&["/lib/season1/a.mkv", "/lib/season2/b.mkv"]));
    assert_eq!(shared, Some("/lib".to_string()));

    let one = common_parent(&paths_of(&["/lib/season1/a.mkv"]));
    assert_eq!(one, Some("/lib/season1".to_string()));

    let apart = common_parent(&paths_of(&["/a/x.mkv", "/b/y.mkv"]));
    assert_eq!(apart, Some("/".to_string()));

    assert_eq!(common_parent(&paths_of(&["x.mkv"])), None);
    assert_eq!(common_parent(&paths_of(&[])), None);
}

fn abandoned_line(ceilings: Ceilings) -> String {
    let (n, edges) = moon_moser(20);
    let fps = mock_library(n);
    let mut stats = RunStats::default();

    group_within(n, edges, &fps, &mut stats, ceilings, &never);

    let lines = stats.clustering_abandoned.samples();
    assert_eq!(lines.len(), 1, "one component, one line");
    lines[0].clone()
}

#[test]
fn test_the_work_ceiling_says_how_many_groups_it_had_found() {
    let barely = abandoned_line(Ceilings { budget: 200, groups: usize::MAX });
    assert!(
        barely.contains("ran past its work ceiling, with 0 found so far"),
        "got: {}",
        barely
    );

    let further = abandoned_line(Ceilings { budget: 2_000_000, groups: usize::MAX });
    let found: usize = further
        .split("with ")
        .nth(1)
        .and_then(|tail| tail.split(' ').next())
        .and_then(|n| n.parse().ok())
        .unwrap_or_else(|| panic!("no count in: {}", further));
    assert!(found > 0, "a budget this size gets somewhere: {}", further);
}

#[test]
fn test_the_group_ceiling_says_the_threshold_rather_than_a_count() {
    let line = abandoned_line(Ceilings { budget: usize::MAX, groups: 5 });

    assert!(
        line.contains("they form more than 5 overlapping groups"),
        "got: {}",
        line
    );
    assert!(
        !line.contains("6 overlapping groups"),
        "one past the ceiling is what it holds, not what it means: {}",
        line
    );
}

#[test]
fn test_the_shipped_ceilings_clear_a_realistically_dense_library() {
    let (n, edges) = moon_moser(4);
    let mut all = edges;
    let base = n;
    for a in base..(base + 40) {
        for b in (a + 1)..(base + 40) {
            all.push((a, b));
        }
    }

    let fps = mock_library(base + 40);
    let mut stats = RunStats::default();
    let groups = group_within(base + 40, all, &fps, &mut stats, Ceilings::shipped(), &never);

    assert_eq!(stats.clustering_abandoned.count(), 0, "real densities must not trip it");
    assert_eq!(groups[0].len(), 40, "the folder of re-encodes is one group");
    assert_eq!(groups.len(), 1 + 81);
}

fn complete(n: usize) -> Vec<(usize, usize)> {
    let mut edges = Vec::with_capacity(n * (n - 1) / 2);
    for a in 0..n {
        for b in (a + 1)..n {
            edges.push((a, b));
        }
    }
    edges
}

#[test]
fn test_a_folder_of_identical_files_is_one_group_however_many_of_them_there_are() {
    let n = 700;
    let fps = mock_library(n);
    let mut stats = RunStats::default();

    let groups = group_within(n, complete(n), &fps, &mut stats, Ceilings::shipped(), &never);

    assert_eq!(stats.clustering_abandoned.count(), 0, "nothing here is too dense to answer");
    assert_eq!(groups.len(), 1, "a complete graph has exactly one maximal clique");
    assert_eq!(groups[0].len(), n, "and every file is in it");
}

#[test]
fn test_the_pivot_is_still_the_one_adjacent_to_the_most_candidates() {
    let n = 8;
    let p: HashSet<usize> = (1..=5).collect();
    let x: HashSet<usize> = [0usize, 6, 7].into_iter().collect();

    let mut edges: Vec<(usize, usize)> = (1..=5).map(|v| (0, v)).collect();
    for a in 1..=5 {
        for b in (a + 1)..=5 {
            edges.push((a, b));
        }
    }
    edges.push((6, 2));
    edges.push((7, 3));

    let adjacency = adjacency_of(n, &edges);
    let mut search = Search::new(&adjacency, Ceilings::shipped());

    let pivot = choose_pivot(&p, &x, &adjacency, &mut search).expect("a pivot exists");
    assert_eq!(pivot, 0, "the only candidate covering the whole of p");

    let exhaustive: usize = p
        .union(&x)
        .map(|&v| intersection_cost(&adjacency[v], &p))
        .sum();
    let spent = Ceilings::shipped().budget - search.budget;
    assert!(spent < exhaustive, "spent {} of an exhaustive {}", spent, exhaustive);
}

#[test]
fn test_a_complete_neighbourhood_costs_one_intersection_to_pivot() {
    let n = 40;
    let adjacency = adjacency_of(n, &complete(n));
    let p: HashSet<usize> = (0..n).collect();
    let x: HashSet<usize> = HashSet::new();

    let mut search = Search::new(&adjacency, Ceilings::shipped());
    assert!(choose_pivot(&p, &x, &adjacency, &mut search).is_some());

    let spent = Ceilings::shipped().budget - search.budget;
    assert_eq!(
        spent,
        intersection_cost(&adjacency[0], &p),
        "one intersection, not one per candidate"
    );
}

#[test]
fn test_the_budget_still_refuses_a_genuinely_explosive_component() {
    let (n, edges) = moon_moser(20);
    let fps = mock_library(n);
    let mut stats = RunStats::default();

    let groups = group_within(n, edges, &fps, &mut stats, Ceilings::shipped(), &never);

    assert!(groups.is_empty(), "a partial enumeration must not be reported");
    assert_eq!(stats.clustering_abandoned.count(), 1);
}

#[test]
fn a_stopped_run_reports_no_groups_and_no_problem() {
    let fps = mock_library(3);
    let mut stats = RunStats::default();
    let stop = || true;
    let groups = find_duplicate_groups(3, vec![(0, 1), (1, 2)], &fps, &mut stats, &stop);
    assert!(groups.is_empty());
    assert_eq!(stats.clustering_abandoned.count(), 0);
    assert!(!stats.had_problems());
}

#[test]
fn groups_are_ordered_by_the_paths_of_their_members() {
    let fps = vec![
        mock_fingerprint("/z.mp4"),
        mock_fingerprint("/b.mp4"),
        mock_fingerprint("/a.mp4"),
        mock_fingerprint("/y.mp4"),
    ];
    let groups = groups_of(4, vec![(0, 3), (1, 2)], &fps);
    assert_eq!(groups, vec![vec![2, 1], vec![3, 0]]);
}

#[test]
fn the_ceilings_are_worded_exactly() {
    let c = Ceilings { budget: 10, groups: 7 };
    assert_eq!(
        Halt::Budget.ceiling(12, c),
        "the search for groups ran past its work ceiling, with 12 found so far"
    );
    assert!(Halt::Groups.ceiling(8, c).contains("more than 7 overlapping groups"));
}

#[test]
fn one_group_more_than_the_ceiling_drops_the_component() {
    let fps = mock_library(3);
    let edges = vec![(0, 1), (1, 2)];
    let mut stats = RunStats::default();
    let ceilings = Ceilings { budget: usize::MAX, groups: 1 };
    let groups = group_within(3, edges.clone(), &fps, &mut stats, ceilings, &never);
    assert!(groups.is_empty());
    assert_eq!(stats.clustering_abandoned.count(), 1);

    let mut roomy = RunStats::default();
    let ceilings = Ceilings { budget: usize::MAX, groups: 2 };
    let groups = group_within(3, edges, &fps, &mut roomy, ceilings, &never);
    assert_eq!(groups, vec![vec![0, 1], vec![1, 2]]);
    assert_eq!(roomy.clustering_abandoned.count(), 0);
}

#[test]
fn a_leaf_costs_one_probe_and_an_excluded_vertex_spoils_it() {
    let adjacency = adjacency_of(3, &complete(3));
    let mut search = Search::new(&adjacency, Ceilings { budget: 100, groups: 10 });
    let r: HashSet<usize> = [0usize, 1].into_iter().collect();
    let x: HashSet<usize> = [2usize].into_iter().collect();
    bron_kerbosch(r.clone(), HashSet::new(), x, &mut search, &never);
    assert!(search.cliques.is_empty());
    assert_eq!(search.budget, 99);
    assert_eq!(search.halted, None);
    bron_kerbosch(r.clone(), HashSet::new(), HashSet::new(), &mut search, &never);
    assert_eq!(search.cliques, vec![r]);
    assert_eq!(search.budget, 98);
}

#[test]
fn a_halted_search_does_nothing_more() {
    let adjacency = adjacency_of(3, &complete(3));
    let mut search = Search::new(&adjacency, Ceilings { budget: 100, groups: 10 });
    search.halted = Some(Halt::Groups);
    bron_kerbosch(HashSet::new(), (0..3).collect(), HashSet::new(), &mut search, &never);
    assert!(search.cliques.is_empty());
    assert_eq!(search.budget, 100);
    assert_eq!(search.halted, Some(Halt::Groups));
}

#[test]
fn components_begin_with_their_smallest_member_and_come_in_order() {
    let adjacency = adjacency_of(8, &[(6, 2), (2, 7), (5, 0), (4, 1)]);
    let parts = components(&adjacency);
    let firsts: Vec<usize> = parts.iter().map(|c| c[0]).collect();
    assert_eq!(firsts, vec![0, 1, 2]);
    let mut last = parts[2].clone();
    last.sort_unstable();
    assert_eq!(last, vec![2, 6, 7]);
}

#[test]
fn a_request_to_stop_is_honoured_where_there_is_anything_to_search() {
    let ceilings = Ceilings::shipped();
    let linked = adjacency_of(3, &[(0, 1)]);
    assert!(enumerate(&linked, ceilings, &|| true).interrupted);
    let apart = adjacency_of(3, &[]);
    let e = enumerate(&apart, ceilings, &|| true);
    assert!(!e.interrupted);
    assert!(e.cliques.is_empty());
    assert!(e.abandoned.is_empty());
}

#[test]
fn lists_of_the_same_pairs_give_the_same_groups() {
    let fps = mock_library(4);
    let run = |edges: Vec<(usize, usize)>| {
        find_duplicate_groups(4, edges, &fps, &mut RunStats::default(), &never)
    };
    let plain = run(vec![(0, 1), (1, 2), (0, 2), (2, 3)]);
    assert_eq!(plain, vec![vec![0, 1, 2], vec![2, 3]]);
    assert_eq!(run(vec![(3, 2), (2, 0), (1, 0), (2, 1), (0, 1), (3, 2)]), plain);
}

#[test]
fn a_star_is_searched_however_many_files_it_has() {
    let n = 200;
    let fps = mock_library(n);
    let mut stats = RunStats::default();
    let edges: Vec<(usize, usize)> = (1..n).map(|v| (0, v)).collect();
    let groups = find_duplicate_groups(n, edges, &fps, &mut stats, &never);
    assert_eq!(groups.len(), n - 1);
    assert_eq!(stats.clustering_abandoned.count(), 0);
}

#[test]
fn whatever_the_sets_a_step_only_adds_what_they_allow() {
    let adjacency = adjacency_of(5, &[(0, 1), (1, 2), (0, 2), (3, 4)]);
    let mut search = Search::new(&adjacency, Ceilings { budget: 1000, groups: 10 });
    let r: HashSet<usize> = [4usize].into_iter().collect();
    let p: HashSet<usize> = [0usize, 1, 3].into_iter().collect();
    let x: HashSet<usize> = [1usize].into_iter().collect();
    bron_kerbosch(r.clone(), p.clone(), x, &mut search, &never);
    assert_eq!(search.halted, None);
    assert!(search.budget < 1000);
    for clique in &search.cliques {
        assert!(r.is_subset(clique));
        assert!(clique.iter().all(|v| r.contains(v) || p.contains(v)));
    }
}

#[test]
fn ceilings_take_nothing_away_but_components() {
    let edges = vec![(0, 1), (1, 2), (3, 4), (4, 5), (3, 5), (6, 7)];
    let fps = mock_library(8);
    let within = |groups: usize| {
        let mut stats = RunStats::default();
        let ceilings = Ceilings { budget: usize::MAX, groups };
        let found = group_within(8, edges.clone(), &fps, &mut stats, ceilings, &never);
        (found, stats.clustering_abandoned.count())
    };
    let (full, none) = within(usize::MAX);
    assert_eq!(none, 0);
    assert_eq!(full, vec![vec![3, 4, 5], vec![0, 1], vec![1, 2], vec![6, 7]]);
    let (part, dropped) = within(1);
    assert_eq!(dropped, 1);
    assert_eq!(part, vec![vec![3, 4, 5], vec![6, 7]]);
}
