//! Which pairs of videos share footage, how much of it and where.

use vid_fp::candidates::candidate_pairs;
use vid_fp::compare::{find_all_matches, listed_pairs, overlap_seconds, Match, MatchIndex};
use vid_fp::corroborate::{corroborate_pair, corroborated, plan_bands, Rule};
use vid_fp::evidence::{
    hash_counts, max_hamming_distance, sigma_below_chance, witness_schedule, Tolerance,
    CORROBORATION_SLACK, EVIDENCE_ANCHOR_SIGMA, HASH_BITS, SIGMA,
};
use vid_fp::fingerprint::VideoFingerprint;
use vid_fp::frames::ALIGNMENT_TOLERANCE_MS;
use vid_fp::hash_index::{
    block_of, index_is_cheaper, probe_masks, probe_radius, BINS, BLOCK_BITS,
};
use vid_fp::overlap::{match_overlap, Footage, Share, Span};
use vid_fp::quantity::{Rate, Seconds};
use vid_fp::witness::{Aligned, Witnesses};

fn never() -> bool {
    false
}

fn seconds(s: f64) -> Seconds {
    Seconds::from_ms((s * 1000.0).round() as u64)
}

fn share(s: f64) -> Share {
    Share::new((s * 10_000.0).round() as u32, 10_000)
}

fn portion(s: Share) -> f64 {
    let (part, whole) = s.parts();
    part as f64 / whole as f64
}

/// How long some footage lasts.
fn length_of(f: Footage) -> f64 {
    let (num, den) = f.runtime.parts();
    portion(f.share) * (num as f64 / den as f64)
}

/// How many orders of magnitude rarer than certain a chance match this close is.
fn chance_orders_of_magnitude(distance: u32) -> f64 {
    let near = hash_counts()[distance as usize] as f64;
    -(near / 2f64.powi(HASH_BITS as i32)).log10()
}


fn mock_fp_with_hashes(hashes: Vec<u64>, slots: u32) -> VideoFingerprint {
    let len = hashes.len();
    VideoFingerprint {
        path: "mock.mp4".to_string(),
        valid_hashes: hashes,
        valid_t_start: (0..len as u32).collect(),
        valid_t_end: (1..=len as u32).collect(),
        total_ms: slots,
        width: 1920,
        height: 1080,
        duration: seconds(10.0),
        file_size: 1024,
        codec: "h264".to_string(),
        frame_rate: Rate::from_fraction(30, 1),
    }
}

fn mock_fp_lasting(length: f64) -> VideoFingerprint {
    let mut fp = mock_fp_with_hashes(vec![], 1);
    fp.duration = seconds(length);
    fp
}

fn assert_near(actual: Option<Footage>, expected: f64) {
    let got = length_of(actual.expect("expected a measured overlap, got none"));
    assert!(
        (got - expected).abs() < 1e-3,
        "expected about {} seconds, got {}",
        expected,
        got
    );
}

fn pairs(matches: &[Match]) -> Vec<(usize, usize)> {
    let mut out: Vec<(usize, usize)> = matches.iter().map(|m| (m.a, m.b)).collect();
    out.sort_unstable();
    out
}

fn mock_fp_sampled(hashes: Vec<u64>, step_ms: u32) -> VideoFingerprint {
    let len = hashes.len() as u32;
    let mut fp = mock_fp_with_hashes(hashes, len * step_ms);
    fp.valid_t_start = (0..len).map(|i| i * step_ms).collect();
    fp.valid_t_end = (1..=len).map(|i| i * step_ms).collect();
    fp.duration = Seconds::from_ms((len * step_ms) as u64);
    fp
}

fn distinct_hash(i: u64) -> u64 {
    i.wrapping_mul(0x9E37_79B9_7F4A_7C15) ^ 0x0F0F_0F0F_0F0F_0F0F
}

fn exactly(bits: u32) -> Tolerance {
    Tolerance { strict: bits, loose: bits }
}

fn exact_rule<'a>(bits: u32, schedule: &'a Vec<u32>) -> Rule<'a> {
    Rule { tol: exactly(bits), schedule }
}

#[test]
fn test_the_widest_tolerance_is_chance_itself() {
    assert_eq!(max_hamming_distance(), HASH_BITS / 2);

    assert!(chance_orders_of_magnitude(max_hamming_distance()) < 0.5);
    assert!(chance_orders_of_magnitude(max_hamming_distance() - 4) > 0.5);
}

#[test]
fn test_blocks_partition_the_hash_without_gaps_or_overlap() {
    let h = 0x0123_4567_89AB_CDEFu64;
    assert_eq!(block_of(h, 0), 0x0123);
    assert_eq!(block_of(h, 1), 0x4567);
    assert_eq!(block_of(h, 2), 0x89AB);
    assert_eq!(block_of(h, 3), 0xCDEF);
}

fn proposed(fps: &[VideoFingerprint], max_hamming_dist: u32) -> Vec<(usize, usize)> {
    candidate_pairs(fps, &probe_masks(probe_radius(max_hamming_dist)), max_hamming_dist, &never)
}

#[test]
fn test_probe_radius_is_derived_from_the_tolerance() {
    assert_eq!(probe_radius(0), 0);
    assert_eq!(probe_radius(3), 0, "a tight tolerance probes exact bins only");
    assert_eq!(probe_radius(4), 1);
    assert_eq!(probe_radius(7), 1);
    assert_eq!(probe_radius(8), 2);
    assert_eq!(probe_radius(63), 15);
    assert_eq!(probe_radius(HASH_BITS), BLOCK_BITS as u32, "the widest -d probes every bin");
}

#[test]
fn test_probe_masks_are_exactly_the_patterns_within_the_radius() {
    assert_eq!(probe_masks(0), vec![0u16]);
    assert_eq!(probe_masks(1).len(), 17);
    assert_eq!(probe_masks(2).len(), 137);
    assert!(probe_masks(2).iter().all(|m| m.count_ones() <= 2));
    assert_eq!(probe_masks(BLOCK_BITS as u32).len(), BINS, "radius 16 is every bin");
}

#[test]
fn test_the_index_is_abandoned_once_the_probe_outgrows_the_library() {
    let (videos, hashes) = (727, 8966);
    let pays = |d: u32| index_is_cheaper(probe_masks(probe_radius(d)).len(), videos, hashes);

    assert!(pays(4), "the default tolerance must never pay for the whole triangle");
    assert!(pays(8));
    assert!(!pays(16), "radius 4 is 2517 keys a block; the direct route is measured faster");
    assert!(!pays(32));

    assert!(index_is_cheaper(probe_masks(probe_radius(64)).len(), videos, 0));
}

#[test]
fn test_find_all_matches_exact() {
    let hash = 0xFFFF_0000_FFFF_0000;
    let fps = vec![
        mock_fp_with_hashes(vec![hash, hash], 2),
        mock_fp_with_hashes(vec![hash, hash], 2),
    ];

    let matches = find_all_matches(&fps, 0, share(1.0), seconds(0.0), &never);

    assert!(!matches.is_empty(), "Exact duplicates should match");
    assert_eq!(pairs(&matches), vec![(0, 1)]);
}

#[test]
fn test_a_lone_frame_match_beyond_the_tolerance_is_refused() {
    let fps = vec![
        mock_fp_sampled(vec![0x0000_0000_0000_0000], 1000),
        mock_fp_sampled(vec![0x0000_0000_0000_0007], 1000),
    ];

    assert!(find_all_matches(&fps, 2, share(1.0), seconds(0.0), &never).is_empty());
    assert!(!find_all_matches(&fps, 4, share(1.0), seconds(0.0), &never).is_empty());
}

#[test]
fn test_frame_matches_agreeing_on_an_offset_are_admitted_beyond_the_tolerance() {
    let a: Vec<u64> = (0..3).map(distinct_hash).collect();
    let b: Vec<u64> = a.iter().map(|h| h ^ 0b111).collect();
    let fps = vec![mock_fp_sampled(a, 2000), mock_fp_sampled(b, 2000)];

    let matches = find_all_matches(&fps, 2, share(1.0), seconds(0.0), &never);
    assert_eq!(pairs(&matches), vec![(0, 1)]);
    assert!(
        (portion(matches[0].coverage_a) - 1.0).abs() < 1e-6,
        "every sample was corroborated, so all of the runtime is covered"
    );
}

#[test]
fn test_frame_matches_disagreeing_on_an_offset_do_not_witness_each_other() {
    let fps = vec![
        mock_fp_sampled(vec![0x0000, 0x00FF], 10_000),
        mock_fp_sampled(vec![0x000F], 10_000),
    ];

    assert!(find_all_matches(&fps, 2, share(1.0), seconds(0.0), &never).is_empty());
    assert!(!find_all_matches(&fps, 4, share(1.0), seconds(0.0), &never).is_empty());
}

#[test]
fn test_the_tolerance_pair_moves_monotonically_with_the_flag() {
    let mut previous = Tolerance { strict: 0, loose: 0 };
    for d in 0..=HASH_BITS {
        let tol = Tolerance::for_distance(d);
        assert!(tol.strict <= tol.loose, "-d {d}: strict must not exceed loose");
        assert!(tol.loose >= d, "-d {d}: never stricter than the flag asked for");
        assert!(tol.strict >= previous.strict && tol.loose >= previous.loose);
        previous = tol;
    }
    assert_eq!(Tolerance::for_distance(0), Tolerance { strict: 0, loose: 6 });
    assert_eq!(Tolerance::for_distance(4), Tolerance { strict: 4, loose: 10 });
    assert_eq!(Tolerance::for_distance(12), Tolerance { strict: 12, loose: 18 });
    assert_eq!(Tolerance::for_distance(20), Tolerance { strict: 20, loose: 26 });
    assert_eq!(
        Tolerance::for_distance(HASH_BITS),
        Tolerance { strict: HASH_BITS, loose: HASH_BITS }
    );
}

#[test]
fn test_the_thresholds_are_stated_in_sigma_so_they_track_the_hash_width() {
    assert_eq!(SIGMA, 4);
    assert_eq!(sigma_below_chance(EVIDENCE_ANCHOR_SIGMA), 12);
    assert_eq!(CORROBORATION_SLACK, 6);
}

#[test]
fn test_one_witness_is_exactly_enough_at_the_anchor() {
    let schedule = witness_schedule();
    let anchor = sigma_below_chance(EVIDENCE_ANCHOR_SIGMA) as usize;
    for (distance, needed) in schedule.iter().enumerate().take(anchor + 1) {
        assert_eq!(*needed, 1, "a match at {distance} bits should need exactly one witness");
    }
    assert!(schedule[anchor + 4] > 1, "4 bits further out is 175x likelier by chance");
}

#[test]
fn test_how_many_witnesses_a_looser_match_takes() {
    let schedule = witness_schedule();
    assert_eq!(schedule[14], 2);
    assert_eq!(schedule[16], 3);
    assert_eq!(schedule[20], 4);
}

#[test]
fn test_the_witness_schedule_never_softens_as_the_distance_grows() {
    let schedule = witness_schedule();
    for distance in 1..=HASH_BITS as usize {
        assert!(
            schedule[distance] >= schedule[distance - 1],
            "{distance} bits asks for fewer witnesses than {} does",
            distance - 1
        );
    }
    assert_eq!(
        schedule[HASH_BITS as usize],
        u32::MAX,
        "two hashes as far apart as they can be are not evidence at any cluster size"
    );
}

fn mock_fp_at(hashes: Vec<u64>, times: Vec<u32>) -> VideoFingerprint {
    assert_eq!(hashes.len(), times.len());
    let last = *times.last().expect("a fingerprint needs at least one sample");
    let ends: Vec<u32> = times.iter().skip(1).copied().chain(std::iter::once(last + 1000)).collect();
    let total = *ends.last().unwrap();
    let mut fp = mock_fp_with_hashes(hashes, total);
    fp.valid_t_start = times;
    fp.valid_t_end = ends;
    fp.duration = Seconds::from_ms(total as u64);
    fp
}

fn corroborate_with_cap(
    fp_a: &VideoFingerprint,
    fp_b: &VideoFingerprint,
    tol: Tolerance,
    cap: usize,
) -> (Vec<bool>, Vec<bool>, usize) {
    let mut matched_a = vec![false; fp_a.valid_hashes.len()];
    let mut matched_b = vec![false; fp_b.valid_hashes.len()];
    let held = corroborate_pair(
        fp_a,
        fp_b,
        Rule { tol, schedule: &witness_schedule() },
        &mut matched_a,
        &mut matched_b,
        cap,
        &mut Witnesses::new(),
    );
    (matched_a, matched_b, held)
}

#[test]
fn test_cutting_the_offset_axis_into_bands_changes_no_verdict() {
    let tol = Tolerance::for_distance(4);
    assert!(tol.loose >= 10 && tol.strict < 10, "the matches below have to be loose ones");
    let ten_bits = 0x3FFu64;

    let a_hashes: Vec<u64> = (0..60).map(distinct_hash).collect();
    let a_times: Vec<u32> = (0..60).map(|i| 50_000 + i * 2000).collect();

    let mut b_hashes: Vec<u64> = (100..160).map(distinct_hash).collect();
    let mut b_times: Vec<u32> = a_times.clone();
    for i in 0..40u32 {
        b_hashes[i as usize] = a_hashes[i as usize] ^ ten_bits;
        let offset = (i / 2) * 700 + (i % 2) * 120;
        b_times[i as usize] = a_times[i as usize] - offset + 30_000;
    }
    for i in 40..60 {
        b_times[i] = a_times[i] + 60_000;
    }
    b_hashes[59] = a_hashes[59] ^ ten_bits;

    let a = mock_fp_at(a_hashes, a_times);
    let b = mock_fp_at(b_hashes, b_times);

    let (whole_a, whole_b, held) = corroborate_with_cap(&a, &b, tol, usize::MAX);
    assert_eq!(held, 41, "40 corroborating matches and one lone one");
    assert!(whole_a[..40].iter().all(|&m| m), "the drifting run is corroborated");
    assert!(!whole_a[59], "and a match nothing agrees with is not");

    for cap in [1, 2, 3, 7, 20] {
        let (banded_a, banded_b, held) = corroborate_with_cap(&a, &b, tol, cap);
        assert_eq!(banded_a, whole_a, "banded at {cap}, A read differently");
        assert_eq!(banded_b, whole_b, "banded at {cap}, B read differently");
        assert!(held < 41, "banding at {cap} held the whole pair anyway");
    }
}

#[test]
fn test_a_long_static_pair_is_not_held_in_memory_all_at_once() {
    let tol = Tolerance::for_distance(4);
    let n = 300usize;
    let ten_bits = 0x3FFu64;
    let times: Vec<u32> = (0..n as u32).map(|i| i * 2000).collect();
    let a = mock_fp_at(vec![0xAAAA_AAAA_AAAA_AAAA; n], times.clone());
    let b = mock_fp_at(vec![0xAAAA_AAAA_AAAA_AAAA ^ ten_bits; n], times);

    let (whole_a, whole_b, held) = corroborate_with_cap(&a, &b, tol, usize::MAX);
    assert_eq!(held, n * n, "every sample matches every sample");
    assert!(whole_a.iter().all(|&m| m) && whole_b.iter().all(|&m| m));

    let cap = 1000;
    let (banded_a, banded_b, held) = corroborate_with_cap(&a, &b, tol, cap);
    assert_eq!((banded_a, banded_b), (whole_a, whole_b), "banding changed the verdict");
    assert!(
        held <= cap + 2 * n,
        "held {held} matches at once against a cap of {cap}"
    );
}

#[test]
fn test_a_far_match_needs_more_corroboration_than_a_close_one() {
    let far = 0xFFFFu64;
    let pair_of = |n: u64| {
        let a: Vec<u64> = (0..n).map(distinct_hash).collect();
        let b: Vec<u64> = a.iter().map(|h| h ^ far).collect();
        vec![mock_fp_sampled(a, 1000), mock_fp_sampled(b, 1000)]
    };

    let needed = witness_schedule()[16];
    assert!(find_all_matches(&pair_of(needed as u64), 10, share(1.0), seconds(0.0), &never).is_empty(),
            "{needed} witnesses are required and only {} were available", needed - 1);
    assert!(!find_all_matches(&pair_of(needed as u64 + 1), 10, share(1.0), seconds(0.0), &never).is_empty());
    assert!(find_all_matches(&pair_of(needed as u64 + 4), 8, share(1.0), seconds(0.0), &never).is_empty());
    assert!(!find_all_matches(&pair_of(2), 16, share(1.0), seconds(0.0), &never).is_empty());
}

#[test]
fn test_a_wider_tolerance_never_takes_a_frame_match_away() {
    let a = vec![0xFFFF_FFFF_0000_0000u64, 0x0u64, 0x3Fu64];
    let b = vec![0xFFFF_FFFF_000F_FFC0u64, 0x000F_FFC0u64, 0x0003_FFFCu64];
    let distance = |x: u64, y: u64| (x ^ y).count_ones();
    assert_eq!(
        [distance(a[0], b[0]), distance(a[1], b[1]), distance(a[2], b[2])],
        [14, 14, 14]
    );
    assert_eq!(distance(a[1], b[2]), 16, "the blocker");
    assert_eq!(witness_schedule()[14], 2, "the candidate has to need both witnesses");
    for (i, &x) in a.iter().enumerate() {
        for (j, &y) in b.iter().enumerate() {
            assert!(i == j || (i, j) == (1, 2) || distance(x, y) > 16, "stray match {i}/{j}");
        }
    }

    let fp_a = mock_fp_at(a, vec![15_000, 25_000, 25_100]);
    let fp_b = mock_fp_at(b, vec![10_000, 20_000, 20_100]);
    for d in [8u32, 10] {
        let (marked_a, marked_b, _) =
            corroborate_with_cap(&fp_a, &fp_b, Tolerance::for_distance(d), usize::MAX);
        assert_eq!(marked_a, [true; 3], "-d {d} lost a sample of A");
        assert_eq!(marked_b, [true; 3], "-d {d} lost a sample of B");
    }
}

#[test]
fn test_no_rung_of_the_tolerance_reports_less_than_the_one_below_it() {
    let mut seed = 0x243F_6A88_85A3_08D3u64;
    let mut next = move || {
        seed ^= seed << 13;
        seed ^= seed >> 7;
        seed ^= seed << 17;
        seed
    };
    for case in 0..200 {
        let base = next();
        let noisy = |bits: u32, r: &mut dyn FnMut() -> u64| {
            let mut h = base;
            for _ in 0..bits {
                h ^= 1u64 << (r() % 64);
            }
            h
        };
        let n = 3 + (next() % 6) as usize;
        let a: Vec<u64> = (0..n).map(|_| noisy(6 + (next() % 12) as u32, &mut next)).collect();
        let b: Vec<u64> = (0..n).map(|_| noisy(6 + (next() % 12) as u32, &mut next)).collect();
        let times = |r: &mut dyn FnMut() -> u64| -> Vec<u32> {
            let mut t = 10_000u32;
            (0..n)
                .map(|_| {
                    t += 60 + (r() % 200) as u32;
                    t
                })
                .collect()
        };
        let fp_a = mock_fp_at(a, times(&mut next));
        let fp_b = mock_fp_at(b, times(&mut next));

        let mut previous: Option<(f64, f64)> = None;
        for d in (0..=20).step_by(2) {
            let overlap = match_overlap(
                &fp_a,
                &fp_b,
                Rule { tol: Tolerance::for_distance(d), schedule: &witness_schedule() },
                &mut Witnesses::new(),
            );
            let (cov_a, cov_b) = (portion(overlap.coverage_a), portion(overlap.coverage_b));
            if let Some((was_a, was_b)) = previous {
                assert!(
                    cov_a >= was_a && cov_b >= was_b,
                    "case {case}: -d {d} covers ({cov_a}, {cov_b}) where -d {} covered ({was_a}, {was_b})",
                    d - 2
                );
            }
            previous = Some((cov_a, cov_b));
        }
    }
}

#[test]
fn test_witnesses_are_paired_off_rather_than_counted_up() {
    let mut scratch = Witnesses::new();
    scratch.begin(4, 9);
    let window: Vec<Aligned> = vec![
        (0, 1, 2, 16),
        (0, 1, 1, 14),
        (0, 2, 2, 14),
        (0, 0, 0, 14),
    ];
    assert!(scratch.enough(&window, 0, 0, 2));
    assert!(!scratch.enough(&window, 0, 0, 3));
    let static_shot: Vec<Aligned> =
        std::iter::once((0, 0, 0, 14)).chain((1..9).map(|j| (0, 1, j, 14))).collect();
    assert!(scratch.enough(&static_shot, 0, 0, 1));
    assert!(!scratch.enough(&static_shot, 0, 0, 2));

    let mut scratch = Witnesses::new();
    scratch.begin(5, 5);
    let rearrange: Vec<Aligned> = vec![
        (0, 0, 0, 14),
        (0, 1, 1, 14),
        (0, 2, 2, 14),
        (0, 1, 3, 14),
        (0, 3, 1, 14),
    ];
    assert!(rearrange.len() - 1 < 3 * (3 - 1) + 1, "the edge count must not settle it");
    assert!(scratch.enough(&rearrange, 0, 0, 3));
    assert!(!scratch.enough(&rearrange, 0, 0, 4));
}

fn largest_matching(window: &[Aligned], i: u32, j: u32) -> usize {
    let mut edges: std::collections::BTreeMap<u32, Vec<u32>> = std::collections::BTreeMap::new();
    for &(_, wi, wj, _) in window {
        if wi != i && wj != j {
            let to = edges.entry(wi).or_default();
            if !to.contains(&wj) {
                to.push(wj);
            }
        }
    }

    fn walk(
        a: u32,
        edges: &std::collections::BTreeMap<u32, Vec<u32>>,
        mate: &mut std::collections::BTreeMap<u32, u32>,
        seen: &mut std::collections::BTreeSet<u32>,
    ) -> bool {
        for &b in edges.get(&a).map(|v| v.as_slice()).unwrap_or(&[]) {
            if !seen.insert(b) {
                continue;
            }
            let held = mate.get(&b).copied();
            if held.is_none() || walk(held.unwrap(), edges, mate, seen) {
                mate.insert(b, a);
                return true;
            }
        }
        false
    }

    let mut mate = std::collections::BTreeMap::new();
    let mut size = 0;
    for &a in edges.keys() {
        let mut seen = std::collections::BTreeSet::new();
        if walk(a, &edges, &mut mate, &mut seen) {
            size += 1;
        }
    }
    size
}

#[test]
fn test_the_cheap_exits_agree_with_the_matching_they_stand_in_for() {
    let mut state = 0x2545_F491_4F6C_DD1Du64;
    let mut rng = move || {
        state ^= state << 13;
        state ^= state >> 7;
        state ^= state << 17;
        state
    };

    let mut scratch = Witnesses::new();
    let mut reached_the_search = 0;
    for _ in 0..4000 {
        let samples = 2 + rng() % 7;
        let count = (rng() % 10) as usize;
        let mut window: Vec<Aligned> = vec![(0, 0, 0, 14)];
        for _ in 0..count {
            let (wi, wj) = ((rng() % samples) as u32, (rng() % samples) as u32);
            if !window.iter().any(|&(_, ei, ej, _)| (ei, ej) == (wi, wj)) {
                window.push((0, wi, wj, 14));
            }
        }
        let largest = largest_matching(&window, 0, 0);
        for declared in [samples as usize, samples as usize + 64] {
            scratch.begin(declared, declared);
            for needed in 1..=5usize {
                assert_eq!(
                    scratch.enough(&window, 0, 0, needed),
                    largest >= needed,
                    "needed {needed}, largest {largest}, declared {declared}, window {window:?}"
                );
                if largest >= needed && needed >= 3 {
                    reached_the_search += 1;
                }
            }
        }
    }
    assert!(reached_the_search > 0, "the corpus never exercised the augmenting search");
}

#[test]
fn test_a_file_too_wide_for_the_bitmask_still_needs_witnesses_on_both_sides() {
    let mut scratch = Witnesses::new();
    scratch.begin(70, 70);
    let window: Vec<Aligned> = vec![
        (0, 0, 0, 14),
        (0, 5, 1, 14),
        (0, 5, 2, 14),
        (0, 5, 3, 14),
    ];
    assert!(scratch.enough(&window, 0, 0, 1));
    assert!(!scratch.enough(&window, 0, 0, 2));
    assert_eq!(largest_matching(&window, 0, 0), 1);

    assert!(!Witnesses::wide_sides_are_wide_enough(&window, 0, 0, 2));
    assert!(Witnesses::wide_sides_are_wide_enough(&window, 0, 0, 1));
}

fn marked_the_slow_way(
    fp_a: &VideoFingerprint,
    fp_b: &VideoFingerprint,
    tol: Tolerance,
) -> (Vec<bool>, Vec<bool>) {
    let schedule = witness_schedule();
    let mut aligned: Vec<Aligned> = Vec::new();
    let mut marked_a = vec![false; fp_a.valid_hashes.len()];
    let mut marked_b = vec![false; fp_b.valid_hashes.len()];
    for (i, &h_a) in fp_a.valid_hashes.iter().enumerate() {
        for (j, &h_b) in fp_b.valid_hashes.iter().enumerate() {
            let distance = (h_a ^ h_b).count_ones();
            if distance > tol.loose {
                continue;
            }
            if distance <= tol.strict {
                marked_a[i] = true;
                marked_b[j] = true;
            }
            let offset = fp_a.valid_t_start[i] as i64 - fp_b.valid_t_start[j] as i64;
            aligned.push((offset, i as u32, j as u32, distance));
        }
    }

    for &(offset, i, j, distance) in &aligned {
        let needed = schedule[distance.min(HASH_BITS) as usize];
        if needed == u32::MAX {
            continue;
        }
        let window: Vec<Aligned> = aligned
            .iter()
            .copied()
            .filter(|&(o, _, _, _)| (o - offset).abs() <= ALIGNMENT_TOLERANCE_MS)
            .collect();
        if largest_matching(&window, i, j) >= needed as usize {
            marked_a[i as usize] = true;
            marked_b[j as usize] = true;
        }
    }
    (marked_a, marked_b)
}

#[test]
fn test_a_row_already_settled_is_skipped_without_changing_what_the_pass_marks() {
    let mut state = 0x1234_5678_9ABC_DEF1u64;
    let mut rng = move || {
        state ^= state << 13;
        state ^= state >> 7;
        state ^= state << 17;
        state
    };

    for round in 0..40 {
        let n = 24usize;
        let a_hashes: Vec<u64> = (0..n as u64).map(distinct_hash).collect();
        let a_times: Vec<u32> = (0..n as u32).map(|i| 10_000 + i * 400).collect();

        let mut b_hashes: Vec<u64> = (100..100 + n as u64).map(distinct_hash).collect();
        let mut b_times: Vec<u32> = a_times.clone();
        for i in 0..n {
            if rng() % 4 == 0 {
                continue;
            }
            let bits = (rng() % 19) as u32;
            let mut mask = 0u64;
            while mask.count_ones() < bits {
                mask |= 1 << (rng() % 64);
            }
            b_hashes[i] = a_hashes[i] ^ mask;
            let cluster = (rng() % 3) as i64 * 900;
            let jitter = (rng() % 400) as i64;
            b_times[i] = (a_times[i] as i64 - 5_000 + cluster + jitter) as u32;
        }
        b_times.sort_unstable();

        let a = mock_fp_at(a_hashes, a_times);
        let b = mock_fp_at(b_hashes, b_times);

        for d in [4u32, 10, 12, 16, 20] {
            let tol = Tolerance::for_distance(d);
            let (got_a, got_b, _) = corroborate_with_cap(&a, &b, tol, usize::MAX);
            let (want_a, want_b) = marked_the_slow_way(&a, &b, tol);
            assert_eq!(got_a, want_a, "round {round}, -d {d}, side A");
            assert_eq!(got_b, want_b, "round {round}, -d {d}, side B");
        }
    }
}

#[test]
fn test_pairs_are_emitted_once_in_ascending_order() {
    let hash = 0xABCD_1234_ABCD_1234;
    let fps = vec![
        mock_fp_with_hashes(vec![hash], 1),
        mock_fp_with_hashes(vec![hash], 1),
        mock_fp_with_hashes(vec![hash], 1),
    ];

    assert_eq!(proposed(&fps, 0), vec![(0, 1), (0, 2), (1, 2)]);
    assert_eq!(pairs(&find_all_matches(&fps, 0, share(1.0), seconds(0.0), &never)), vec![(0, 1), (0, 2), (1, 2)]);
}

#[test]
fn test_the_default_tolerance_is_exhaustive_with_no_bit_flips() {
    let a = 0x0000_0000_0000_0000u64;
    let b = 0x0001_0001_0001_0000u64;
    assert_eq!((a ^ b).count_ones(), 3);
    assert_eq!(probe_radius(3), 0);

    let fps = vec![mock_fp_with_hashes(vec![a], 1), mock_fp_with_hashes(vec![b], 1)];

    assert_eq!(proposed(&fps, 3), vec![(0, 1)]);
}

#[test]
fn test_a_pair_with_no_identical_block_is_found_once_the_radius_widens() {
    let a = 0x0000_0000_0000_0000u64;
    let b = 0x0001_0001_0001_0001u64;
    assert_eq!((a ^ b).count_ones(), 4);

    let fps = vec![mock_fp_with_hashes(vec![a], 1), mock_fp_with_hashes(vec![b], 1)];

    assert_eq!(proposed(&fps, 4), vec![(0, 1)]);
    assert!(
        proposed(&fps, 3).is_empty(),
        "and four bits apart is genuinely outside a three-bit tolerance"
    );
}

#[test]
fn test_the_index_proposes_a_pair_no_single_block_agrees_on() {
    let a = 0xFFFF_FFFF_FFFF_FFFFu64;
    let b = a ^ 0x0007_0007_0007_0007;
    assert_eq!((a ^ b).count_ones(), 12);
    assert_eq!(probe_radius(12), 3);

    let fps = vec![mock_fp_with_hashes(vec![a], 1), mock_fp_with_hashes(vec![b], 1)];

    assert_eq!(proposed(&fps, 12), vec![(0, 1)]);
    assert!(
        proposed(&fps, 11).is_empty(),
        "twelve bits apart is outside an eleven-bit tolerance, and radius 2 cannot see it"
    );
}

#[test]
fn test_phase_two_counts_frames_the_index_only_had_to_propose() {
    let shared = 0x0000_0000_0000_0000u64;
    let far_a = 0xFFFF_FFFF_FFFF_FFFFu64;
    let far_b = far_a ^ 0x0007_0007_0007_0007;

    let fps = vec![
        mock_fp_with_hashes(vec![shared, far_a], 2),
        mock_fp_with_hashes(vec![shared, far_b], 2),
    ];

    assert_eq!(pairs(&find_all_matches(&fps, 12, share(1.0), seconds(0.0), &never)), vec![(0, 1)]);
}

#[test]
fn test_both_routes_propose_the_same_pairs_at_every_tolerance() {
    let fps: Vec<VideoFingerprint> = [
        0x0000_0000_0000_0000u64,
        0x0000_0000_0000_00FFu64,
        0x0001_0001_0001_0001u64,
        0x0007_0007_0007_0007u64,
        0x00FF_0000_0000_0000u64,
        0xFFFF_FFFF_FFFF_FFFFu64,
    ]
    .iter()
    .map(|&h| mock_fp_with_hashes(vec![h], 1))
    .collect();

    for d in 0..=HASH_BITS {
        let mut direct: Vec<(usize, usize)> = Vec::new();
        for a in 0..fps.len() {
            for b in (a + 1)..fps.len() {
                let (h_a, h_b) = (fps[a].valid_hashes[0], fps[b].valid_hashes[0]);
                if (h_a ^ h_b).count_ones() <= d {
                    direct.push((a, b));
                }
            }
        }

        assert_eq!(proposed(&fps, d), direct, "the index missed a pair at -d {}", d);
    }
}

#[test]
fn test_min_duration_gates_on_the_figure_the_report_will_print() {
    let fps = vec![mock_fp_lasting(10.0), mock_fp_lasting(10.0)];
    let idx = MatchIndex::new(vec![Match::new(0, 1, share(0.6), share(0.2))]);

    assert_near(idx.shared_seconds(0, 1, &fps), 2.0);

    assert_near(overlap_seconds(share(0.6), seconds(10.0), share(0.2), seconds(10.0)), 2.0);
    assert!(
        overlap_seconds(share(0.6), seconds(10.0), share(0.2), seconds(10.0)).is_some_and(|s| length_of(s) < 3.0),
        "a 3s floor must reject a 2s overlap, whatever the louder side claims"
    );
}

#[test]
fn test_a_pair_with_no_measurable_runtime_cannot_clear_a_seconds_floor() {
    assert_eq!(overlap_seconds(share(1.0), seconds(0.0), share(1.0), seconds(0.0)).map(length_of), None);

    let hash = 0xABCD_1234_ABCD_1234u64;
    let mut a = mock_fp_with_hashes(vec![hash, hash], 2);
    let mut b = mock_fp_with_hashes(vec![hash, hash], 2);
    a.duration = seconds(0.0);
    b.duration = seconds(0.0);

    assert!(
        find_all_matches(&[a, b], 0, share(1.0), seconds(5.0), &never).is_empty(),
        "an unmeasurable overlap must not satisfy a floor stated in seconds"
    );
}

#[test]
fn test_min_duration_gates_independently_of_match_percent() {
    let hash = 0xABCD_1234_ABCD_1234u64;
    let fps = vec![
        mock_fp_with_hashes(vec![hash, hash], 2),
        mock_fp_with_hashes(vec![hash, hash], 2),
    ];

    assert_eq!(pairs(&find_all_matches(&fps, 0, share(1.0), seconds(5.0), &never)), vec![(0, 1)], "10s clears a 5s floor");
    assert!(
        find_all_matches(&fps, 0, share(1.0), seconds(30.0), &never).is_empty(),
        "a full-coverage match must still fail a 30s floor"
    );
}

#[test]
fn test_the_gate_switched_off_still_refuses_a_pair_that_shares_nothing() {
    let fps: Vec<VideoFingerprint> =
        (0..4).map(|i| mock_fp_with_hashes(vec![distinct_hash(i)], 1)).collect();
    let masks = probe_masks(probe_radius(Tolerance::for_distance(4).widest())).len();
    assert!(
        !index_is_cheaper(masks, fps.len(), fps.len()),
        "this library has to take the direct route for the test to mean anything"
    );

    assert!(find_all_matches(&fps, 4, share(0.0), seconds(0.0), &never).is_empty(), "unrelated files are not a group");

    let host = mock_fp_sampled((0..100).map(distinct_hash).collect(), 10);
    let clip = mock_fp_sampled(vec![distinct_hash(7)], 10);
    assert_eq!(
        pairs(&find_all_matches(&[host, clip], 0, share(0.0), seconds(0.0), &never)),
        vec![(0, 1)],
        "1% coverage must still clear a floor of 0"
    );
}

#[test]
fn test_both_routes_agree_when_the_gate_is_switched_off() {
    let mut fps: Vec<VideoFingerprint> =
        (0..600).map(|i| mock_fp_with_hashes(vec![distinct_hash(i)], 1)).collect();
    fps.push(mock_fp_with_hashes(vec![distinct_hash(3)], 1));

    let tol = Tolerance::for_distance(4);
    let hashes: usize = fps.iter().map(|fp| fp.valid_hashes.len()).sum();
    assert!(
        index_is_cheaper(probe_masks(probe_radius(tol.widest())).len(), fps.len(), hashes),
        "this library has to take the index route for the test to mean anything"
    );

    assert_eq!(pairs(&find_all_matches(&fps, 4, share(0.0), seconds(0.0), &never)), vec![(3, 600)]);
}

#[test]
fn test_coverage_is_directional_for_a_clip_inside_a_host() {
    let shared = 0x0F0F_0F0F_0F0F_0F0Fu64;
    let host = mock_fp_with_hashes(
        vec![shared, 0x1111_2222_3333_4444, 0x5555_6666_7777_8888, 0x9999_AAAA_BBBB_CCCC],
        4,
    );
    let clip = mock_fp_with_hashes(vec![shared], 1);

    let matches = find_all_matches(&[host, clip], 0, share(0.10), seconds(0.0), &never);

    assert_eq!(matches.len(), 1);
    let m = matches[0];
    assert_eq!((m.a, m.b), (0, 1));
    assert!((portion(m.coverage_a) - 0.25).abs() < 1e-6, "host is a quarter covered, got {:?}", m.coverage_a);
    assert!((portion(m.coverage_b) - 1.0).abs() < 1e-6, "clip is fully covered, got {:?}", m.coverage_b);
}

#[test]
fn test_index_answers_both_directions_of_a_pair() {
    let idx = MatchIndex::new(vec![Match::new(0, 1, share(0.25), share(1.0))]);

    assert_eq!(idx.coverage(0, 1).map(portion), Some(0.25));
    assert_eq!(idx.coverage(1, 0).map(portion), Some(1.0));
    assert_eq!(idx.coverage(0, 2).map(portion), None, "a pair that never matched has no figure");
}

#[test]
fn test_shared_seconds_reads_the_same_from_either_end() {
    let fps = vec![mock_fp_lasting(1320.0), mock_fp_lasting(120.0)];
    let idx = MatchIndex::new(vec![Match::new(0, 1, Share::new(120, 1320), share(1.0))]);

    let from_host = length_of(idx.shared_seconds(0, 1, &fps).unwrap());
    let from_clip = length_of(idx.shared_seconds(1, 0, &fps).unwrap());

    assert!((from_host - 120.0).abs() < 0.5, "got {}", from_host);
    assert!((from_clip - from_host).abs() < 1e-9, "argument order must not matter");
}

#[test]
fn test_shared_seconds_takes_the_lower_estimate_when_the_sides_disagree() {
    let fps = vec![mock_fp_lasting(100.0), mock_fp_lasting(100.0)];
    let idx = MatchIndex::new(vec![Match::new(0, 1, share(0.50), share(0.40))]);

    assert_near(idx.shared_seconds(0, 1, &fps), 40.0);
}

#[test]
fn test_one_shared_keyframe_is_a_fraction_of_a_second_not_a_big_percentage() {
    let fps = vec![mock_fp_lasting(3.0), mock_fp_lasting(9.0)];
    let idx = MatchIndex::new(vec![Match::new(0, 1, share(0.25), share(0.0714))]);

    let shared = length_of(idx.shared_seconds(0, 1, &fps).unwrap());
    assert!(shared < 1.0, "one keyframe is well under a second, got {}", shared);
}

#[test]
fn test_an_unknown_runtime_falls_back_to_the_other_file() {
    let fps = vec![mock_fp_lasting(0.0), mock_fp_lasting(60.0)];
    let idx = MatchIndex::new(vec![Match::new(0, 1, share(1.0), share(0.5))]);

    assert_eq!(idx.shared_seconds(0, 1, &fps).map(length_of), Some(30.0));
}

#[test]
fn test_two_unknown_runtimes_report_unknown_rather_than_zero() {
    let fps = vec![mock_fp_lasting(0.0), mock_fp_lasting(0.0)];
    let idx = MatchIndex::new(vec![Match::new(0, 1, share(1.0), share(1.0))]);

    assert_eq!(idx.shared_seconds(0, 1, &fps).map(length_of), None);
}

#[test]
fn test_strongest_shared_in_group_finds_the_best_link() {
    let fps = vec![
        mock_fp_lasting(600.0),
        mock_fp_lasting(600.0),
        mock_fp_lasting(10.0),
    ];
    let idx = MatchIndex::new(vec![
        Match::new(0, 1, share(1.0), share(1.0)),
        Match::new(0, 2, share(0.005), share(0.3)),
        Match::new(1, 2, share(0.005), share(0.3)),
    ]);
    let group = [0, 1, 2];

    assert_near(idx.best_link_in_group(0, &group, &fps).map(|l| l.matched_seconds), 600.0);
    assert_near(idx.best_link_in_group(1, &group, &fps).map(|l| l.matched_seconds), 600.0);
    assert_near(idx.best_link_in_group(2, &group, &fps).map(|l| l.matched_seconds), 3.0);
}

#[test]
fn test_a_pair_that_was_never_compared_is_skipped_rather_than_erasing_the_figure() {
    let fps = vec![
        mock_fp_lasting(600.0),
        mock_fp_lasting(600.0),
        mock_fp_lasting(600.0),
    ];
    let idx = MatchIndex::new(vec![
        Match::new(0, 1, share(1.0), share(1.0)),
        Match::new(1, 2, share(0.5), share(0.5)),
    ]);
    let group = [0, 1, 2];

    assert_near(idx.best_link_in_group(0, &group, &fps).map(|l| l.matched_seconds), 600.0);
    assert_near(idx.best_link_in_group(1, &group, &fps).map(|l| l.matched_seconds), 600.0);
    assert_near(idx.best_link_in_group(2, &group, &fps).map(|l| l.matched_seconds), 300.0);
}

#[test]
fn test_a_file_with_no_measurable_link_reports_unknown() {
    let fps = vec![mock_fp_lasting(600.0), mock_fp_lasting(600.0)];
    let idx = MatchIndex::new(vec![]);

    assert!(idx.best_link_in_group(0, &[0, 1], &fps).is_none());
}

#[test]
fn test_the_span_locates_a_clip_inside_its_host() {
    let host = mock_fp_sampled((0..10).map(distinct_hash).collect(), 1000);
    let clip = mock_fp_sampled((4..7).map(distinct_hash).collect(), 1000);

    let overlap =
        match_overlap(&clip, &host, exact_rule(0, &witness_schedule()), &mut Witnesses::new());
    let (span_clip, span_host) = (overlap.span_a, overlap.span_b);

    assert_eq!(span_clip, Some(Span { start_ms: 0, end_ms: 3000 }));
    assert_eq!(
        span_host,
        Some(Span { start_ms: 4000, end_ms: 7000 }),
        "the host's span must point at the clip's position in the host, not at the clip"
    );
}

#[test]
fn test_the_span_is_an_envelope_and_says_so_next_to_the_shared_duration() {
    let a = mock_fp_sampled((0..10).map(distinct_hash).collect(), 1000);
    let b = mock_fp_sampled(vec![distinct_hash(0), distinct_hash(9)], 1000);

    let overlap =
        match_overlap(&a, &b, exact_rule(0, &witness_schedule()), &mut Witnesses::new());
    let (coverage_a, span_a) = (portion(overlap.coverage_a), overlap.span_a);

    assert_eq!(span_a, Some(Span { start_ms: 0, end_ms: 10_000 }));
    assert!(
        (coverage_a - 0.2).abs() < 1e-6,
        "expected 20% shared inside a 100% envelope, got {}",
        coverage_a
    );
}

#[test]
fn test_spans_survive_the_trip_through_find_all_matches() {
    let host = mock_fp_sampled((0..10).map(distinct_hash).collect(), 1000);
    let clip = mock_fp_sampled((4..7).map(distinct_hash).collect(), 1000);
    let fps = vec![host, clip];

    let matches = find_all_matches(&fps, 0, share(0.2), seconds(0.0), &never);
    assert_eq!(matches.len(), 1, "the clip should match its host");

    let m = matches[0];
    assert_eq!((m.a, m.b), (0, 1));
    assert_eq!(m.span_a, Some(Span { start_ms: 4000, end_ms: 7000 }), "position in the host");
    assert_eq!(m.span_b, Some(Span { start_ms: 0, end_ms: 3000 }), "position in the clip");

    let idx = MatchIndex::new(matches);
    assert_eq!(idx.span(0, 1), Some(Span { start_ms: 4000, end_ms: 7000 }));
    assert_eq!(idx.span(1, 0), Some(Span { start_ms: 0, end_ms: 3000 }));
}

#[test]
fn test_links_in_group_are_ordered_strongest_first_and_name_the_other_file() {
    let mut fps = vec![
        mock_fp_lasting(600.0),
        mock_fp_lasting(600.0),
        mock_fp_lasting(600.0),
    ];
    fps[0].path = "/a.mp4".into();
    fps[1].path = "/b.mp4".into();
    fps[2].path = "/c.mp4".into();

    let idx = MatchIndex::new(vec![
        Match::new(0, 1, share(1.0), share(1.0)),
        Match::new(0, 2, share(0.01), share(0.01)),
    ]);
    let links = idx.links_of(0, &[0, 1, 2], &fps);

    assert_eq!(links.len(), 2);
    assert_eq!(links[0].other, 1);
    assert_near(Some(links[0].matched_seconds), 600.0);
    assert_eq!(links[1].other, 2);
    assert_near(Some(links[1].matched_seconds), 6.0);
}

#[test]
fn test_equally_strong_links_are_ordered_by_path_so_the_report_is_reproducible() {
    let mut fps = vec![
        mock_fp_lasting(600.0),
        mock_fp_lasting(600.0),
        mock_fp_lasting(600.0),
    ];
    fps[0].path = "/subject.mp4".into();
    fps[1].path = "/zebra.mp4".into();
    fps[2].path = "/aardvark.mp4".into();

    for matches in [
        vec![Match::new(0, 1, share(1.0), share(1.0)), Match::new(0, 2, share(1.0), share(1.0))],
        vec![Match::new(0, 2, share(1.0), share(1.0)), Match::new(0, 1, share(1.0), share(1.0))],
    ] {
        let links = MatchIndex::new(matches).links_of(0, &[0, 1, 2], &fps);
        assert_eq!(
            fps[links[0].other].path, "/aardvark.mp4",
            "an exact tie should fall to the alphabetically first path"
        );
    }
}

#[test]
fn test_a_link_with_no_matched_sample_reports_no_span() {
    let a = mock_fp_sampled(vec![distinct_hash(1)], 1000);
    let b = mock_fp_sampled(vec![distinct_hash(2)], 1000);

    let overlap =
        match_overlap(&a, &b, exact_rule(0, &witness_schedule()), &mut Witnesses::new());
    let (span_a, span_b) = (overlap.span_a, overlap.span_b);

    assert_eq!(span_a, None);
    assert_eq!(span_b, None);
}

#[test]
fn test_a_span_is_handed_out_in_seconds() {
    let span = Span { start_ms: 4000, end_ms: 7500 };
    assert_eq!(span.start_seconds().parts(), (4000, 1000));
    assert_eq!(span.end_seconds().parts(), (7500, 1000));
}

#[test]
fn test_a_match_says_nothing_of_codec_or_resolution() {
    let a = mock_fp_sampled((0..10).map(distinct_hash).collect(), 1000);
    let mut plain = mock_fp_sampled((0..10).map(distinct_hash).collect(), 1000);
    let first = match_overlap(&a, &plain, exact_rule(0, &witness_schedule()), &mut Witnesses::new());
    plain.width = 320;
    plain.height = 240;
    plain.codec = "hevc".to_string();
    plain.file_size = 7;
    let second = match_overlap(&a, &plain, exact_rule(0, &witness_schedule()), &mut Witnesses::new());
    assert_eq!(first.coverage_a.parts(), second.coverage_a.parts());
    assert_eq!(first.coverage_b.parts(), second.coverage_b.parts());
    assert_eq!(first.span_a, second.span_a);
    assert_eq!(first.span_b, second.span_b);
}

#[test]
fn bands_run_from_the_least_offset_to_the_greatest_without_a_gap() {
    let hash = distinct_hash(0);
    let a = mock_fp_at(vec![hash; 6], vec![10_000, 12_000, 14_000, 16_000, 18_000, 20_000]);
    let b = mock_fp_at(vec![hash; 2], vec![1_000, 1_100]);
    let tol = Tolerance::for_distance(4);
    let cut = |cap: usize| {
        plan_bands(&a, &b, tol, &mut vec![false; 6], &mut vec![false; 2], cap)
    };
    assert_eq!(cut(100), vec![(8_900, 19_001)]);
    let fine = cut(4);
    assert_eq!(fine, vec![(8_900, 12_900), (12_900, 16_900), (16_900, 19_001)]);
    assert_eq!(cut(1).len(), 6, "a bucket of two matches is left whole");
    let nothing = mock_fp_with_hashes(vec![], 1);
    assert_eq!(
        plan_bands(&a, &nothing, tol, &mut vec![false; 6], &mut vec![], 4),
        vec![(i64::MIN, i64::MAX)]
    );
}

#[test]
fn any_table_of_witnesses_is_obeyed_and_the_matches_end_up_in_order() {
    let rows: Vec<Aligned> = vec![(400, 2, 2, 70), (0, 0, 0, 5), (100, 1, 1, 20)];
    let verdicts = |needed: u32, refused: u32| {
        let mut list = rows.clone();
        let mut schedule = vec![needed; 65];
        schedule[64] = refused;
        let (mut a, mut b) = (vec![false; 3], vec![false; 3]);
        let everything = (i64::MIN, i64::MAX);
        corroborated(&mut list, &schedule, &mut a, &mut b, everything, &mut Witnesses::new());
        assert_eq!(list, vec![(0, 0, 0, 5), (100, 1, 1, 20), (400, 2, 2, 70)]);
        assert_eq!(a, b);
        a
    };
    assert_eq!(verdicts(2, 2), vec![true, true, true]);
    assert_eq!(verdicts(3, 2), vec![false, false, true]);
    assert_eq!(verdicts(1, u32::MAX), vec![true, true, false]);
}

#[test]
fn the_index_is_only_asked_where_it_is_cheaper() {
    let fps: Vec<VideoFingerprint> =
        (0..4).map(|_| mock_fp_sampled(vec![distinct_hash(1)], 1000)).collect();
    assert!(listed_pairs(&fps, Tolerance::for_distance(32), &never).is_none());
    let found = find_all_matches(&fps, 32, share(0.5), seconds(0.0), &never);
    assert_eq!(found.len(), 6);
}

#[test]
fn an_odd_distance_accepts_what_the_even_one_below_it_does() {
    let balanced = 0xFFFF_FFFF_0000_0000u64;
    let six_off = balanced ^ 0x0000_0007_0000_0007;
    let a = mock_fp_sampled(vec![balanced], 1000);
    let b = mock_fp_sampled(vec![six_off], 1000);
    let matched = |d: u32| {
        find_all_matches(&[a.clone(), b.clone()], d, share(0.5), seconds(0.0), &never).len()
    };
    assert_eq!((matched(4), matched(5)), (0, 0));
    assert_eq!((matched(6), matched(7)), (1, 1));
}

#[test]
fn a_match_is_what_measuring_its_pair_gives() {
    let fps: Vec<VideoFingerprint> = (0..3u64)
        .map(|v| {
            let hashes = (0..10u64).map(|i| distinct_hash(if i < 4 { i } else { i + 20 * v })).collect();
            mock_fp_sampled(hashes, 1000)
        })
        .collect();
    let schedule = witness_schedule();
    for (d, percent) in [(0, 0.3), (4, 0.4), (4, 0.5), (8, 0.0)] {
        let found = find_all_matches(&fps, d, share(percent), seconds(0.0), &never);
        for a in 0..3 {
            for b in a + 1..3 {
                let rule = Rule { tol: Tolerance::for_distance(d), schedule: &schedule };
                let o = match_overlap(&fps[a], &fps[b], rule, &mut Witnesses::new());
                let reported: Vec<&Match> =
                    found.iter().filter(|m| m.a == a && m.b == b).collect();
                let (part, whole) = o.coverage_a.parts();
                let clears = part > 0 && part as f64 / whole as f64 >= percent;
                assert_eq!(reported.len(), clears as usize);
                for m in reported {
                    assert_eq!(m.coverage_a.parts(), o.coverage_a.parts());
                    assert_eq!(m.coverage_b.parts(), o.coverage_b.parts());
                }
            }
        }
    }
}
