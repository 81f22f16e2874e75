//! Which copies go and what the report says of them.

use std::cell::RefCell;
use std::collections::HashSet;
use vid_fp::compare::{Match, MatchIndex};
use vid_fp::disposal::{on_disk, Alias, Disposal, Look, OnDisk};
use vid_fp::document::{document, Document};
use vid_fp::fates::Priority;
use vid_fp::fingerprint::VideoFingerprint;
use vid_fp::overlap::Share;
use vid_fp::quantity::{Rate, Seconds};
use vid_fp::report::{console_for, output_results, Format, ReportTarget, Results, Sink};
use vid_fp::rows::{csv_report, txt_report};
use vid_fp::stats::RunStats;

const CSV_HEADER: &str = "group;action;full_path;length;length_seconds;resolution;width;\
height;framerate_fps;codec;size;size_bytes;bitrate;bitrate_bps;quality;\
quality_bits_per_frame;matched_with;samples;matched_seconds;matched_from;matched_to;\
matched_from_seconds;matched_to_seconds";

fn never() -> bool {
    false
}

fn seconds(s: f64) -> Seconds {
    Seconds::from_ms((s * 1000.0).round() as u64)
}

fn share(s: f64) -> Share {
    Share::new((s * 10_000.0).round() as u32, 10_000)
}

fn mock_fp() -> VideoFingerprint {
    VideoFingerprint {
        path: "/fake/path/vid.mp4".to_string(),
        valid_hashes: vec![],
        valid_t_start: vec![],
        valid_t_end: vec![],
        total_ms: 100_000,
        width: 1920,
        height: 1080,
        duration: seconds(60.0),
        file_size: 1048576,
        codec: "h264".to_string(),
        frame_rate: Rate::from_fraction(30, 1),
    }
}

/// A mock whose size scales with its runtime, at exactly 1 Mbps.
fn mock_fp_at(path: &str, duration: f64) -> VideoFingerprint {
    let mut fp = mock_fp();
    fp.path = path.to_string();
    fp.duration = seconds(duration);
    fp.file_size = (duration * 131_072.0) as u64;
    fp
}

fn mock_fp_coded(path: &str, duration: f64, codec: &str) -> VideoFingerprint {
    let mut fp = mock_fp_at(path, duration);
    fp.codec = codec.to_string();
    fp
}

fn mock_fp_sized(path: &str, duration: f64, codec: &str, file_size: u64) -> VideoFingerprint {
    let mut fp = mock_fp_coded(path, duration, codec);
    fp.file_size = file_size;
    fp
}

fn all_compared(n: usize) -> MatchIndex {
    let mut matches = Vec::new();
    for a in 0..n {
        for b in (a + 1)..n {
            matches.push(Match::new(a, b, share(1.0), share(1.0)));
        }
    }
    MatchIndex::new(matches)
}

fn chain_of_three() -> MatchIndex {
    MatchIndex::new(vec![
        Match::new(0, 1, share(1.0), share(1.0)),
        Match::new(1, 2, share(1.0), share(1.0)),
    ])
}

/// The figure a file is ranked by, comparable only within a codec for the last two.
fn figure(fp: &VideoFingerprint, by: Priority) -> u64 {
    match by {
        Priority::Length => fp.duration.whole_ms() as u64,
        Priority::Resolution => fp.width as u64 * fp.height as u64,
        Priority::Quality => fp.quality(),
        Priority::Size => fp.file_size,
    }
}

/// Whether a file is among the best of its group on one figure: within a second of the
/// longest, at the top resolution, within a twentieth of its codec's densest.
fn is_top(fps: &[VideoFingerprint], group: &[usize], x: usize, by: Priority) -> bool {
    let own = figure(&fps[x], by);
    match by {
        Priority::Length => {
            let top = group.iter().map(|&i| figure(&fps[i], by)).max().unwrap();
            own == 0 || own + 1000 >= top
        }
        Priority::Resolution => {
            own == group.iter().map(|&i| figure(&fps[i], by)).max().unwrap()
        }
        Priority::Quality | Priority::Size => {
            let top = group
                .iter()
                .filter(|&&i| fps[i].codec == fps[x].codec)
                .map(|&i| figure(&fps[i], by))
                .max()
                .unwrap();
            own * 20 >= top * 19
        }
    }
}

/// The best of a group: on the tiers, then on the figures, then on the path.
fn best_of(fps: &[VideoFingerprint], group: &[usize], by: Priority) -> usize {
    let mut order = vec![by];
    for p in [Priority::Length, Priority::Resolution, Priority::Quality, Priority::Size] {
        if p != by {
            order.push(p);
        }
    }
    let beats = |a: usize, b: usize| -> bool {
        for &p in &order {
            let (x, y) = (is_top(fps, group, a, p), is_top(fps, group, b, p));
            if x != y {
                return x;
            }
        }
        for &p in &order {
            let bits = p == Priority::Quality || p == Priority::Size;
            if bits && fps[a].codec != fps[b].codec {
                continue;
            }
            let (x, y) = (figure(&fps[a], p), figure(&fps[b], p));
            if x != y {
                return x > y;
            }
        }
        fps[a].path < fps[b].path
    };
    let mut top = group[0];
    for &x in &group[1..] {
        if beats(x, top) {
            top = x;
        }
    }
    top
}

/// One run, with what it did to the disk.
struct Run {
    results: Results,
    stats: RunStats,
    removed: Vec<String>,
}

impl Run {
    fn action(&self, group: usize, file: usize) -> &str {
        &self.results.groups[group].rows[file][1]
    }

    fn csv(&self) -> String {
        csv_report(&self.results.groups).unwrap()
    }

    fn document(
        &self,
        groups: Vec<Vec<usize>>,
        fps: &[VideoFingerprint],
        index: &MatchIndex,
    ) -> Document {
        document(&groups, fps, index, 0, &self.results)
    }

    fn gone(&self) -> Vec<String> {
        let mut gone = self.results.tally.gone.clone();
        gone.sort();
        gone
    }
}

fn whole(fp: &VideoFingerprint) -> OnDisk {
    on_disk(Look::File { size: fp.file_size, names: 1 })
}

fn run_with(
    groups: &Vec<Vec<usize>>,
    fps: &[VideoFingerprint],
    index: &MatchIndex,
    elapsed: u64,
    disposal: Option<Disposal>,
    allowed: bool,
    look: &dyn Fn(usize) -> OnDisk,
    can_remove: &dyn Fn(usize) -> bool,
) -> Run {
    let mut stats = RunStats::default();
    let removed = RefCell::new(Vec::new());
    let best = |group: &Vec<usize>, by: Priority| best_of(fps, group, by);
    let leads = |group: &Vec<usize>, x: usize, by: Priority| is_top(fps, group, x, by);
    let approve = |_: &Vec<usize>| allowed;
    let look = |x: usize| look(x);
    let remove = |x: usize| {
        let done = can_remove(x);
        if done {
            removed.borrow_mut().push(fps[x].path.clone());
        }
        done
    };
    let results = output_results(
        groups,
        fps,
        index,
        elapsed,
        Priority::Length,
        disposal,
        &best,
        &leads,
        &approve,
        &look,
        &remove,
        &never,
        &mut stats,
    );
    Run { results, stats, removed: removed.into_inner() }
}

/// A run in which the disk holds every file as it was measured.
fn run(
    groups: Vec<Vec<usize>>,
    fps: &[VideoFingerprint],
    index: &MatchIndex,
    disposal: Option<Disposal>,
) -> Run {
    let look = |x: usize| whole(&fps[x]);
    run_with(&groups, fps, index, 0, disposal, true, &look, &|_| true)
}

fn armed(groups: Vec<Vec<usize>>, fps: &[VideoFingerprint], index: &MatchIndex) -> Run {
    run(groups, fps, index, Some(Disposal::Permanent))
}

fn to_file(path: &str, format: Format) -> ReportTarget {
    ReportTarget { sink: Sink::File(path.to_string()), format }
}

#[test]
fn test_a_report_on_stdout_replaces_the_console_listing_instead_of_joining_it() {
    let stdout = |format| ReportTarget { sink: Sink::Stdout, format };

    assert!(!console_for(Some(&stdout(Format::Txt))).listing);
    assert!(!console_for(Some(&stdout(Format::Txt))).summary);

    assert!(!console_for(Some(&stdout(Format::Json))).summary);

    assert!(!console_for(Some(&stdout(Format::Csv))).listing);
    assert!(console_for(Some(&stdout(Format::Csv))).summary);

    let file = to_file("report.csv", Format::Csv);
    assert!(console_for(Some(&file)).listing);
    assert!(console_for(Some(&file)).summary);
    assert!(console_for(None).listing);
    assert!(console_for(None).summary);
}

#[test]
fn test_csv_output() {
    let fps = vec![mock_fp()];
    let run = run(vec![vec![0]], &fps, &all_compared(1), None);
    assert!(run.gone().is_empty());

    let contents = run.csv();
    assert!(contents.contains(CSV_HEADER), "{}", contents);
    assert!(
        contents.contains(
            "group_1;KEEP;/fake/path/vid.mp4;00:01:00;60.00;1920x1080;1920;1080;30;h264;\
1.0MB;1048576;140kbps;139810;4.7kb/f;4660;;0;;;;;"
        ),
        "{}",
        contents
    );
}

#[test]
fn test_a_dry_run_says_what_it_would_reclaim() {
    let fps = vec![mock_fp_at("/fake/keep.mkv", 100.0), mock_fp_at("/fake/dupe.mkv", 10.0)];
    let run = run(vec![vec![0, 1]], &fps, &all_compared(2), None);
    let summary = run.document(vec![vec![0, 1]], &fps, &all_compared(2)).summary;
    assert_eq!(summary.mode, "report");
    assert_eq!(summary.files_marked_delete, 1);
    assert_eq!(summary.reclaimable_bytes, 1_310_720u64);
    assert_eq!(summary.files_removed, 0);
    assert_eq!(summary.bytes_removed, 0u64);
    assert!(run.results.wants_nudge());
    assert!(run.removed.is_empty());
}

#[test]
fn test_reclaimable_totals_the_delete_targets_of_every_group() {
    let fps = vec![
        mock_fp_at("/fake/best_a.mkv", 60.0),
        mock_fp_at("/fake/dupe_a.mkv", 10.0),
        mock_fp_at("/fake/best_b.mkv", 60.0),
        mock_fp_at("/fake/dupe_b.mkv", 10.0),
    ];
    let run = run(vec![vec![0, 1], vec![2, 3]], &fps, &all_compared(4), None);
    assert_eq!(run.results.fates.delete.len(), 2);
    assert_eq!(run.results.reclaimable_bytes, 2_621_440u64);
}

#[test]
fn test_csv_carries_every_figure_the_json_does() {
    let fps = vec![mock_fp_at("/fake/a.mp4", 100.0), mock_fp_at("/fake/b.mp4", 100.0)];
    let matches = MatchIndex::new(vec![Match::new(0, 1, share(0.80), share(0.80))]);
    let run = run(vec![vec![0, 1]], &fps, &matches, None);
    let csv = run.csv();
    let doc = run.document(vec![vec![0, 1]], &fps, &matches);
    let file = &doc.results[0].files[0];
    assert_eq!(file.length_seconds, Some(10_000));
    assert_eq!(file.width, 1920);
    assert_eq!(file.height, 1080);
    assert_eq!(file.framerate_fps, Some(30_000));
    assert_eq!(file.size_bytes, 13_107_200u64);
    assert_eq!(file.bitrate_bps, 1_048_576u64);
    assert_eq!(file.quality_bits_per_frame, Some(34_952u64));
    assert_eq!(file.matched_seconds, Some(8_000));
    assert_eq!(file.matches[0].matched_seconds, Some(8_000));
    assert!(
        csv.contains(
            "group_1;KEEP;/fake/a.mp4;00:01:40;100.00;1920x1080;1920;1080;30;h264;\
12.5MB;13107200;1.0Mbps;1048576;35.0kb/f;34952;/fake/b.mp4;0;80.00;"
        ),
        "{}",
        csv
    );
}

#[test]
fn test_a_lopsided_pair_reports_each_row_against_its_own_envelope() {
    let mut host = mock_fp_at("/fake/_18.mp4", 6.01);
    let mut lone = mock_fp_at("/fake/_19.mp4", 8.84);
    host.valid_hashes = vec![0; 10];
    lone.valid_hashes = vec![0; 1];
    let fps = vec![host, lone];
    let matches = MatchIndex::new(vec![
        Match::new(0, 1, share(0.3123), share(1.0)).with_spans((3753, 5630), (0, 8842)),
    ]);
    let contents = run(vec![vec![0, 1]], &fps, &matches, None).csv();
    for line in contents.lines().skip(1) {
        let cells: Vec<&str> = line.split(';').collect();
        let matched: f64 = cells[18].parse().unwrap();
        let from: f64 = cells[21].parse().unwrap();
        let to: f64 = cells[22].parse().unwrap();
        assert!(matched <= to - from + 1e-9, "{}", line);
    }
    assert!(contents.contains(";/fake/_19.mp4;10;1.88;"), "_18 row: {}", contents);
    assert!(contents.contains(";/fake/_18.mp4;1;8.84;"), "_19 row: {}", contents);
}

#[test]
fn test_matched_duration_reads_the_same_on_a_clip_and_its_host() {
    let fps = vec![mock_fp_at("/fake/host.mp4", 600.0), mock_fp_at("/fake/clip.mp4", 60.0)];
    let matches = MatchIndex::new(vec![Match::new(0, 1, share(0.10), share(1.0))]);
    let contents = run(vec![vec![0, 1]], &fps, &matches, None).csv();
    assert!(contents.contains(";/fake/clip.mp4;0;60.00;"), "host row: {}", contents);
    assert!(contents.contains(";/fake/host.mp4;0;60.00;"), "clip row: {}", contents);
}

#[test]
fn test_the_csv_names_the_file_each_row_is_talking_about() {
    let fps = vec![mock_fp_at("/fake/host.mp4", 600.0), mock_fp_at("/fake/clip.mp4", 60.0)];
    let matches = MatchIndex::new(vec![
        Match::new(0, 1, share(0.10), share(1.0)).with_spans((840_000, 900_000), (0, 60_000)),
    ]);
    let contents = run(vec![vec![0, 1]], &fps, &matches, None).csv();
    assert!(
        contents.contains("group_1;KEEP;/fake/host.mp4;")
            && contents.contains("/fake/clip.mp4;0;60.00;00:14:00;00:15:00;840.00;900.00"),
        "{}",
        contents
    );
    assert!(
        contents.contains("group_1;DELETE;/fake/clip.mp4;")
            && contents.contains("/fake/host.mp4;0;60.00;00:00:00;00:01:00;0.00;60.00"),
        "{}",
        contents
    );
}

#[test]
fn test_the_json_carries_every_link_not_only_the_strongest() {
    let fps = vec![
        mock_fp_at("/fake/a.mp4", 600.0),
        mock_fp_at("/fake/b.mp4", 600.0),
        mock_fp_at("/fake/c.mp4", 600.0),
    ];
    let matches = MatchIndex::new(vec![
        Match::new(0, 1, share(1.0), share(1.0)).with_spans((0, 600_000), (0, 600_000)),
        Match::new(0, 2, share(0.01), share(0.01)).with_spans((0, 6_000), (594_000, 600_000)),
        Match::new(1, 2, share(0.01), share(0.01)).with_spans((0, 6_000), (594_000, 600_000)),
    ]);
    let links = matches.links_of(0, &[0, 1, 2], &fps);
    assert_eq!(links.len(), 2);
    assert_eq!(links[0].other, 1);
    assert_eq!(links[1].other, 2);
    assert_eq!(links[0].matched_seconds.share.parts(), (10_000, 10_000));
    assert_eq!(links[1].matched_seconds.share.parts(), (100, 10_000));
    let span = links[1].span.unwrap();
    assert_eq!((span.start_ms, span.end_ms), (0, 6_000));

    let run = run(vec![vec![0, 1, 2]], &fps, &matches, None);
    let row = &run.results.groups[0].rows[0];
    assert_eq!(row[2], "/fake/a.mp4");
    assert_eq!(row[16], "/fake/b.mp4");
    assert_eq!(row[18], "600.00");
    assert_eq!(row[19], "00:00:00");
    assert_eq!(row[20], "00:10:00");

    let doc = run.document(vec![vec![0, 1, 2]], &fps, &matches);
    let file = &doc.results[0].files[0];
    assert_eq!(file.full_path, "/fake/a.mp4");
    assert_eq!(file.matched_with.as_deref(), Some("/fake/b.mp4"));
    assert_eq!(file.matched_seconds, Some(60_000));
    assert_eq!(file.matched_from.as_deref(), Some("00:00:00"));
    assert_eq!(file.matched_to.as_deref(), Some("00:10:00"));
    assert_eq!(file.matches.len(), 2);
    assert_eq!(file.matches[0].full_path, "/fake/b.mp4");
    assert_eq!(file.matches[0].matched_seconds, Some(60_000));
    assert_eq!(file.matches[0].matched_from.as_deref(), Some("00:00:00"));
    assert_eq!(file.matches[0].matched_to.as_deref(), Some("00:10:00"));
    assert_eq!(file.matches[1].full_path, "/fake/c.mp4");
    assert_eq!(file.matches[1].matched_seconds, Some(600));
    assert_eq!(file.matches[1].matched_from.as_deref(), Some("00:00:00"));
    assert_eq!(file.matches[1].matched_to.as_deref(), Some("00:00:06"));
}

#[test]
fn test_a_chained_member_reports_only_the_links_it_actually_has() {
    let fps = vec![
        mock_fp_at("/fake/a.mp4", 600.0),
        mock_fp_at("/fake/b.mp4", 600.0),
        mock_fp_at("/fake/c.mp4", 600.0),
    ];
    let matches = MatchIndex::new(vec![
        Match::new(0, 1, share(1.0), share(1.0)).with_spans((0, 600_000), (0, 600_000)),
        Match::new(1, 2, share(0.5), share(0.5)).with_spans((0, 300_000), (300_000, 600_000)),
    ]);
    let group = [0, 1, 2];
    let a = matches.links_of(0, &group, &fps);
    assert_eq!(a.len(), 1);
    assert_eq!(a[0].other, 1);
    assert_eq!(matches.links_of(1, &group, &fps).len(), 2);

    let run = run(vec![vec![0, 1, 2]], &fps, &matches, None);
    let doc = run.document(vec![vec![0, 1, 2]], &fps, &matches);
    let files = &doc.results[0].files;
    assert_eq!(files[0].matches.len(), 1);
    assert_eq!(files[0].matched_with.as_deref(), Some("/fake/b.mp4"));
    assert_eq!(files[0].matches[0].full_path, "/fake/b.mp4");
    assert_eq!(files[1].matches.len(), 2);
}

#[test]
fn test_a_single_shared_keyframe_reports_as_a_fraction_of_a_second() {
    let fps = vec![mock_fp_at("/fake/bench_29.mp4", 9.0), mock_fp_at("/fake/bench_38.mp4", 3.0)];
    let matches = MatchIndex::new(vec![Match::new(0, 1, share(0.0714), share(0.25))]);
    let contents = run(vec![vec![0, 1]], &fps, &matches, None).csv();
    assert!(contents.contains(";0.64;"), "{}", contents);
    assert!(!contents.contains(";00:00:00;"), "{}", contents);
}

#[test]
fn test_total_files_matched_counts_every_grouped_file() {
    let fps = vec![
        mock_fp_at("/fake/a.mp4", 100.0),
        mock_fp_at("/fake/b.mp4", 90.0),
        mock_fp_at("/fake/c.mp4", 100.0),
        mock_fp_at("/fake/d.mp4", 10.0),
    ];
    let run = run(vec![vec![0, 1], vec![2, 3]], &fps, &all_compared(4), None);
    let summary = run.document(vec![vec![0, 1], vec![2, 3]], &fps, &all_compared(4)).summary;
    assert_eq!(summary.total_groups, 2);
    assert_eq!(summary.total_files_matched, 4);
}

#[test]
fn test_json_carries_raw_figures_alongside_the_formatted_ones() {
    let fps = vec![mock_fp_at("/fake/a.mp4", 100.0), mock_fp_at("/fake/b.mp4", 100.0)];
    assert_eq!(fps[0].bitrate(), 1_048_576);
    assert_eq!(fps[0].quality(), 34_952);
    let matches = MatchIndex::new(vec![Match::new(0, 1, share(0.80), share(0.80))]);
    let run = run(vec![vec![0, 1]], &fps, &matches, None);
    let row = &run.results.groups[0].rows[0];
    assert_eq!(row[18], "80.00");
    assert_eq!(row[9], "h264");
    assert_eq!(row[8], "30");
    assert_eq!(row[13], "1048576");
    assert_eq!(row[15], "34952");
    let doc = run.document(vec![vec![0, 1]], &fps, &matches);
    let file = &doc.results[0].files[0];
    assert_eq!(file.matches[0].matched_seconds, Some(8_000));
    assert_eq!(file.codec, "h264");
    assert_eq!(file.framerate_fps, Some(30_000));
    assert_eq!(file.bitrate_bps, 1_048_576);
    assert_eq!(file.quality_bits_per_frame, Some(34_952));
}

#[test]
fn test_an_unreported_frame_rate_is_empty_rather_than_zero() {
    let mut lonely = mock_fp_at("/fake/a.mp4", 60.0);
    lonely.frame_rate = Rate::unknown();
    let fps = vec![lonely];
    let run = run(vec![vec![0]], &fps, &all_compared(1), None);
    assert_eq!(fps[0].quality(), 0);
    assert_eq!(fps[0].bitrate(), 1_048_576);
    let doc = run.document(vec![vec![0]], &fps, &all_compared(1));
    let file = &doc.results[0].files[0];
    assert_eq!(file.framerate_fps, None);
    assert_eq!(file.quality_bits_per_frame, None);
    assert_eq!(file.quality, "-");
    assert_eq!(file.bitrate_bps, 1_048_576);
    let csv = run.csv();
    assert!(csv.contains(";1920;1080;;h264;7.5MB;7864320;1.0Mbps;1048576;-;;"), "{}", csv);
}

#[test]
fn test_permanent_delete_removes_only_delete_targets() {
    let fps = vec![mock_fp_at("/v/keep.mkv", 60.0), mock_fp_at("/v/duplicate.mkv", 10.0)];
    let run = armed(vec![vec![0, 1]], &fps, &all_compared(2));
    assert_eq!(run.removed, vec!["/v/duplicate.mkv"]);
    assert!(!run.stats.had_problems());
    assert_eq!(run.gone(), vec!["/v/duplicate.mkv"]);
}

#[test]
fn test_move_to_relocates_a_duplicate_under_a_mirrored_path() {
    let fps = vec![mock_fp_at("/v/keep.mkv", 60.0), mock_fp_at("/v/duplicate.mkv", 10.0)];
    let disposal = Disposal::MoveTo("/dest".to_string());
    assert_eq!(vid_fp::disposal::mirrored("/dest", "/v/duplicate.mkv"), "/dest/v/duplicate.mkv");
    let run = run(vec![vec![0, 1]], &fps, &all_compared(2), Some(disposal));
    assert_eq!(run.removed, vec!["/v/duplicate.mkv"]);
    assert_eq!(run.action(0, 1), "MOVED");
    let doc = run.document(vec![vec![0, 1]], &fps, &all_compared(2));
    assert_eq!(doc.results[0].files[1].action, "MOVED");
    assert_eq!(doc.summary.mode, "move");
    assert_eq!(doc.summary.move_to.as_deref(), Some("/dest"));
    assert_eq!(doc.summary.files_removed, 1);
    assert_eq!(doc.summary.bytes_removed, 1_310_720u64);
    assert!(!run.stats.had_problems());
    assert_eq!(run.gone(), vec!["/v/duplicate.mkv"]);
}

#[test]
fn test_removing_one_of_several_names_frees_nothing_and_says_so() {
    let fps = vec![
        mock_fp_at("/v/keep.mkv", 60.0),
        mock_fp_at("/v/linked.mkv", 10.0),
        mock_fp_at("/v/plain.mkv", 11.0),
    ];
    let look = |x: usize| {
        on_disk(Look::File { size: fps[x].file_size, names: if x == 1 { 2 } else { 1 } })
    };
    let run = run_with(
        &vec![vec![0, 1, 2]],
        &fps,
        &all_compared(3),
        0,
        Some(Disposal::Permanent),
        true,
        &look,
        &|_| true,
    );
    assert!(!run.stats.had_problems());
    assert_eq!(run.gone(), vec!["/v/linked.mkv", "/v/plain.mkv"]);
    assert_eq!(run.action(0, 1), "UNLINKED");
    assert_eq!(run.action(0, 2), "DELETED");
    assert_eq!(run.results.tally.removed_count, 2);
    assert_eq!(run.results.tally.aliased_count, 1);
    assert_eq!(run.results.tally.removed_bytes, 1_441_792u64);
    assert_eq!(run.results.tally.aliased_bytes, 1_310_720u64);
}

#[test]
fn test_a_symlink_is_checked_against_its_target_and_frees_none_of_it() {
    let fps = vec![mock_fp_at("/v/keep.mkv", 60.0), mock_fp_at("/v/link.mkv", 10.0)];
    let look = |x: usize| on_disk(Look::Link { target: Some(fps[x].file_size) });
    let run = run_with(
        &vec![vec![0, 1]],
        &fps,
        &all_compared(2),
        0,
        Some(Disposal::Permanent),
        true,
        &look,
        &|_| true,
    );
    assert_eq!(run.gone(), vec!["/v/link.mkv"]);
    assert_eq!(run.stats.delete_stale.count(), 0);
    assert_eq!(run.action(0, 1), "UNLINKED");
    assert_eq!(run.results.tally.removed_count, 1);
    assert_eq!(run.results.tally.aliased_count, 1);
    assert_eq!(run.results.tally.aliased_bytes, 1_310_720u64);
    assert_eq!(run.results.tally.removed_bytes, 0u64);
}

#[test]
fn test_move_to_mirrors_the_source_tree_so_two_files_cannot_collide() {
    let fps = vec![
        mock_fp_at("/v/keep.mkv", 60.0),
        mock_fp_at("/v/season_1/ep01.mkv", 10.0),
        mock_fp_at("/v/season_2/ep01.mkv", 10.0),
    ];
    let landed: HashSet<String> = fps
        .iter()
        .map(|fp| vid_fp::disposal::mirrored("/dest", &fp.path))
        .collect();
    assert_eq!(landed.len(), 3);
    assert!(landed.contains("/dest/v/season_1/ep01.mkv"));
    let disposal = Disposal::MoveTo("/dest".to_string());
    let run = run(vec![vec![0, 1, 2]], &fps, &all_compared(3), Some(disposal));
    assert_eq!(run.stats.delete_failed.count(), 0);
    assert_eq!(run.gone(), vec!["/v/season_1/ep01.mkv", "/v/season_2/ep01.mkv"]);
}

#[test]
fn test_a_rename_carries_a_hard_link_with_it_and_leaves_a_symlink_behind() {
    let fps = vec![
        mock_fp_at("/v/keep.mkv", 60.0),
        mock_fp_at("/v/linked.mkv", 10.0),
        mock_fp_at("/v/symlinked.mkv", 11.0),
    ];
    let look = |x: usize| match x {
        1 => on_disk(Look::File { size: fps[1].file_size, names: 2 }),
        2 => on_disk(Look::Link { target: Some(fps[2].file_size) }),
        _ => whole(&fps[x]),
    };
    let run = run_with(
        &vec![vec![0, 1, 2]],
        &fps,
        &all_compared(3),
        0,
        Some(Disposal::MoveTo("/dest".to_string())),
        true,
        &look,
        &|_| true,
    );
    assert_eq!(run.action(0, 1), "MOVED");
    assert_eq!(run.action(0, 2), "UNLINKED");
    assert_eq!(run.results.tally.removed_count, 2);
    assert_eq!(run.results.tally.aliased_count, 1);
    assert_eq!(run.results.tally.removed_bytes, fps[1].file_size);
    assert_eq!(run.results.tally.aliased_bytes, fps[2].file_size);
    assert!(!run.stats.had_problems());
}

#[test]
fn test_move_to_never_overwrites_what_an_earlier_run_put_there() {
    let fps = vec![mock_fp_at("/v/keep.mkv", 60.0), mock_fp_at("/v/duplicate.mkv", 10.0)];
    let look = |x: usize| whole(&fps[x]);
    let move_it = |x: usize| {
        let dest = vid_fp::disposal::mirrored("/dest", &fps[x].path);
        let step = vid_fp::disposal::move_under(
            &fps[x].path,
            &dest,
            vid_fp::disposal::MoveEvent::Looked { occupied: true },
        );
        !matches!(step, vid_fp::disposal::MoveStep::Failed(_))
    };
    let run = run_with(
        &vec![vec![0, 1]],
        &fps,
        &all_compared(2),
        0,
        Some(Disposal::MoveTo("/dest".to_string())),
        true,
        &look,
        &move_it,
    );
    assert!(run.removed.is_empty());
    assert_eq!(run.stats.delete_failed.count(), 1);
    assert!(run.stats.had_problems());
    assert!(run.gone().is_empty());
}

fn changed_run(disposal: Disposal, size: u64) -> Run {
    let fps = vec![mock_fp_at("/v/keep.mkv", 60.0), mock_fp_at("/v/other.mkv", 10.0)];
    let look = |x: usize| {
        on_disk(Look::File { size: if x == 1 { size } else { fps[x].file_size }, names: 1 })
    };
    run_with(&vec![vec![0, 1]], &fps, &all_compared(2), 0, Some(disposal), true, &look, &|_| true)
}

#[test]
fn test_a_target_that_changed_since_the_scan_is_not_moved_either() {
    let run = changed_run(Disposal::MoveTo("/dest".to_string()), 1_310_720 + 4096);
    assert!(run.removed.is_empty());
    assert_eq!(run.stats.delete_stale.count(), 1);
    assert!(run.gone().is_empty());
}

#[test]
fn test_a_target_that_changed_since_the_scan_is_not_deleted() {
    let run = changed_run(Disposal::Permanent, 1_310_720 + 4096);
    assert!(run.removed.is_empty());
    assert!(run.gone().is_empty());
    assert_eq!(run.stats.delete_stale.count(), 1);
    assert!(run.stats.had_problems());
    assert_eq!(run.action(0, 1), "CHANGED");
    assert_eq!(run.results.tally.changed_count, 1);
    assert_eq!(run.results.tally.removed_count, 0);
    assert_eq!(
        run.stats.delete_stale.samples()[0],
        "/v/other.mkv: 1310720 bytes when scanned, 1314816 bytes now"
    );
}

#[test]
fn test_a_truncated_target_is_caught_just_as_a_grown_one_is() {
    let run = changed_run(Disposal::Permanent, 1024);
    assert!(run.removed.is_empty());
    assert_eq!(run.stats.delete_stale.count(), 1);
    assert_eq!(run.stats.delete_failed.count(), 0);
}

fn chain() -> Vec<VideoFingerprint> {
    vec![
        mock_fp_at("/v/best.mkv", 100.0),
        mock_fp_at("/v/bridge.mkv", 90.0),
        mock_fp_at("/v/tail.mkv", 10.0),
    ]
}

#[test]
fn test_a_chain_collapses_in_a_single_pass() {
    let fps = chain();
    let run = armed(vec![vec![0, 1], vec![1, 2]], &fps, &chain_of_three());
    let expected = vec!["/v/bridge.mkv", "/v/tail.mkv"];
    assert_eq!(run.gone(), expected);
    let mut removed = run.removed.clone();
    removed.sort();
    assert_eq!(removed, expected);
}

#[test]
fn test_a_file_marked_delete_anywhere_reads_delete_everywhere() {
    let fps = chain();
    let run = run(vec![vec![0, 1], vec![1, 2]], &fps, &chain_of_three(), None);
    assert!(run.gone().is_empty());
    assert_eq!(run.action(0, 1), "DELETE");
    assert_eq!(run.action(1, 0), "DELETE");
    assert_eq!(run.results.fates.delete.len(), 2);
    assert_eq!(run.results.matched_files, 3);
}

#[test]
fn test_review_in_one_group_protects_a_file_in_every_other() {
    let fps = vec![
        mock_fp_coded("/v/h264.mkv", 100.0, "h264"),
        mock_fp_coded("/v/av1.mkv", 100.0, "av1"),
        mock_fp_coded("/v/longer.mkv", 200.0, "h264"),
    ];
    let run = armed(vec![vec![0, 1], vec![1, 2]], &fps, &chain_of_three());
    assert!(run.removed.is_empty());
    assert!(run.gone().is_empty());
    assert_eq!(run.action(1, 0), "REVIEW");
    assert!(run.results.fates.delete.is_empty());
}

fn standoff_with_a_small_copy() -> Vec<VideoFingerprint> {
    let mut small = mock_fp_coded("/v/small_h264.mkv", 60.0, "h264");
    small.width = 1280;
    small.height = 720;
    vec![
        mock_fp_coded("/v/full_h264.mkv", 60.0, "h264"),
        mock_fp_coded("/v/full_av1.mkv", 60.0, "av1"),
        small,
    ]
}

#[test]
fn test_a_codec_standoff_anchors_the_guard_on_every_champion() {
    let fps = standoff_with_a_small_copy();
    let matches = MatchIndex::new(vec![
        Match::new(0, 1, share(1.0), share(1.0)),
        Match::new(0, 2, share(1.0), share(1.0)),
    ]);
    let run = armed(vec![vec![0, 1, 2]], &fps, &matches);
    assert_eq!(run.removed, vec!["/v/small_h264.mkv"]);
    assert_eq!(run.gone(), vec!["/v/small_h264.mkv"]);
}

#[test]
fn test_a_group_keeps_exactly_one_file() {
    let fps = vec![
        mock_fp_at("/v/a_best.mkv", 60.0),
        mock_fp_at("/v/b_equal.mkv", 60.0),
        mock_fp_at("/v/c_short.mkv", 10.0),
    ];
    let run = armed(vec![vec![0, 1, 2]], &fps, &all_compared(3));
    assert_eq!(run.gone(), vec!["/v/b_equal.mkv", "/v/c_short.mkv"]);
    assert_eq!(run.stats.delete_failed.count(), 0);
    let kept = (0..3).filter(|&i| run.action(0, i) == "KEPT").count();
    assert_eq!(kept, 1);
}

#[test]
fn test_each_format_still_carries_its_whole_body_now_that_only_one_is_built() {
    let fps = vec![mock_fp_at("/fake/keep.mkv", 60.0), mock_fp_at("/fake/dupe.mkv", 10.0)];
    let look = |x: usize| whole(&fps[x]);
    let run = run_with(
        &vec![vec![0, 1]],
        &fps,
        &all_compared(2),
        3661,
        None,
        true,
        &look,
        &|_| true,
    );
    let txt = txt_report(&run.results.groups, &run.results.summary);
    assert!(txt.contains("group_1:"), "{}", txt);
    assert!(txt.contains("/fake/keep.mkv"), "{}", txt);
    assert!(txt.contains("/fake/dupe.mkv"), "{}", txt);
    assert!(txt.contains("KEEP"), "{}", txt);
    assert!(txt.contains("DELETE"), "{}", txt);
    assert!(txt.contains("Total groups found: 1"), "{}", txt);
    assert!(txt.contains("Total time elapsed: 01:01:01"), "{}", txt);

    let csv = run.csv();
    assert!(csv.contains(CSV_HEADER), "{}", csv);
    assert_eq!(csv.lines().count(), 3, "{}", csv);
    assert!(csv.contains(";KEEP;/fake/keep.mkv;"), "{}", csv);
    assert!(csv.contains(";DELETE;/fake/dupe.mkv;"), "{}", csv);

    let doc = run.document(vec![vec![0, 1]], &fps, &all_compared(2));
    assert_eq!(doc.summary.total_groups, 1);
    assert_eq!(doc.results[0].files.len(), 2);
    assert_eq!(doc.results[0].files[0].full_path, "/fake/keep.mkv");
}

#[test]
fn test_quality_settles_groups_that_tie_on_length_and_resolution() {
    let mut hi = mock_fp_at("/v/high.mkv", 60.0);
    hi.file_size *= 2;
    let fps = vec![hi, mock_fp_at("/v/low.mkv", 60.0)];
    let run = armed(vec![vec![0, 1]], &fps, &all_compared(2));
    assert_eq!(run.removed, vec!["/v/low.mkv"]);
}

#[test]
fn test_a_codec_standoff_is_left_for_a_human() {
    let h264 = mock_fp_coded("/v/copy_h264.mkv", 60.0, "h264");
    let mut av1 = mock_fp_coded("/v/copy_av1.mkv", 60.0, "av1");
    av1.file_size /= 2;
    let fps = vec![h264, av1];
    let run = armed(vec![vec![0, 1]], &fps, &all_compared(2));
    assert!(run.removed.is_empty());
    assert!(run.gone().is_empty());
    assert_eq!(run.action(0, 0), "REVIEW");
    assert_eq!(run.action(0, 1), "REVIEW");
}

#[test]
fn test_a_file_whose_length_nobody_measured_is_never_the_one_deleted() {
    let mut raw = mock_fp_at("/v/long.h264", 0.0);
    raw.file_size = 141_000;
    let mut clip = mock_fp_at("/v/clip.mp4", 10.0);
    clip.file_size = 73_000;
    let fps = vec![raw, clip];
    let run = armed(vec![vec![0, 1]], &fps, &all_compared(2));
    assert!(run.removed.is_empty());
    assert!(run.gone().is_empty());
    assert_eq!(run.action(0, 0), "REVIEW");
    assert_eq!(run.action(0, 1), "REVIEW");
    let row = &run.results.groups[0].rows[0];
    assert_eq!(row[2], "/v/long.h264");
    assert_eq!(row[3], "-");
    assert_eq!(row[4], "");
    assert_eq!(row[16], "/v/clip.mp4");
    assert_eq!(row[18], "");
    let doc = run.document(vec![vec![0, 1]], &fps, &all_compared(2));
    let raw = &doc.results[0].files[0];
    assert_eq!(raw.length, "-");
    assert_eq!(raw.length_seconds, None);
    assert_eq!(raw.matched_seconds, None);
    assert_eq!(raw.matched_with.as_deref(), Some("/v/clip.mp4"));
    assert_eq!(raw.matches[0].full_path, "/v/clip.mp4");
    assert_eq!(raw.matches[0].matched_seconds, None);
}

#[test]
fn test_a_group_of_nothing_but_unmeasured_lengths_deletes_nothing() {
    let fps: Vec<VideoFingerprint> = ["/v/a.h264", "/v/b.h264", "/v/c.h264"]
        .iter()
        .enumerate()
        .map(|(i, p)| {
            let mut fp = mock_fp_at(p, 0.0);
            fp.file_size = 1_000_000 * (i as u64 + 1);
            fp
        })
        .collect();
    let run = armed(vec![vec![0, 1, 2]], &fps, &all_compared(3));
    assert!(run.gone().is_empty());
    assert!(run.removed.is_empty());
}

#[test]
fn test_an_unmeasured_length_does_not_protect_the_rest_of_the_group() {
    let mut raw = mock_fp_at("/v/capture.h264", 0.0);
    raw.file_size = 20_000_000;
    let full = mock_fp_at("/v/full.mkv", 60.0);
    let mut small = mock_fp_at("/v/small.mkv", 60.0);
    small.width = 1280;
    small.height = 720;
    let fps = vec![raw, full, small];
    let run = armed(vec![vec![0, 1, 2]], &fps, &all_compared(3));
    assert_eq!(run.removed, vec!["/v/small.mkv"]);
    assert_eq!(run.action(0, 0), "REVIEW");
    assert_eq!(run.action(0, 1), "REVIEW");
    assert_eq!(run.action(0, 2), "DELETED");
}

#[test]
fn test_a_codec_standoff_does_not_protect_the_rest_of_the_group() {
    let fps = standoff_with_a_small_copy();
    let run = armed(vec![vec![0, 1, 2]], &fps, &all_compared(3));
    assert_eq!(run.removed, vec!["/v/small_h264.mkv"]);
}

#[test]
fn test_a_standoff_keeps_the_best_copy_of_each_codec_and_no_more() {
    let fps = vec![
        mock_fp_sized("/v/h264_best.mkv", 60.0, "h264", 24_000_000),
        mock_fp_sized("/v/h264_mid.mkv", 60.0, "h264", 9_000_000),
        mock_fp_sized("/v/hevc_best.mkv", 60.0, "hevc", 12_000_000),
        mock_fp_sized("/v/hevc_worst.mkv", 60.0, "hevc", 3_000_000),
        mock_fp_sized("/v/av1_only.mkv", 60.0, "av1", 6_000_000),
    ];
    let run = armed(vec![vec![0, 1, 2, 3, 4]], &fps, &all_compared(5));
    assert_eq!(run.gone(), vec!["/v/h264_mid.mkv", "/v/hevc_worst.mkv"]);
}

#[test]
fn test_a_champion_is_elected_on_quality_not_on_filename() {
    let fps = vec![
        mock_fp_sized("/v/a_worse.mkv", 60.0, "h264", 9_600_000),
        mock_fp_sized("/v/z_best.mkv", 60.0, "h264", 10_000_000),
        mock_fp_sized("/v/m_av1.mkv", 60.0, "av1", 4_000_000),
    ];
    let run = armed(vec![vec![0, 1, 2]], &fps, &all_compared(3));
    assert_eq!(run.removed, vec!["/v/a_worse.mkv"]);
}

#[test]
fn test_a_foreign_codec_that_is_not_even_a_contender_decides_nothing() {
    let mut small = mock_fp_sized("/v/m_av1_720p.mkv", 60.0, "av1", 4_000_000);
    small.width = 1280;
    small.height = 720;
    let fps = vec![
        mock_fp_sized("/v/a_worse.mkv", 60.0, "h264", 9_600_000),
        mock_fp_sized("/v/z_best.mkv", 60.0, "h264", 10_000_000),
        small,
    ];
    let run = armed(vec![vec![0, 1, 2]], &fps, &all_compared(3));
    let removed: HashSet<String> = run.removed.iter().cloned().collect();
    assert!(!removed.contains("/v/z_best.mkv"));
    assert!(removed.contains("/v/a_worse.mkv"));
}

#[test]
fn test_a_standoff_cannot_delete_the_copy_the_group_ranked_first() {
    let fps = vec![
        mock_fp_sized("/v/a_pick.mkv", 60.0, "h264", 27_000_000),
        mock_fp_sized("/v/c_denser.mkv", 59.5, "h264", 30_000_000),
        mock_fp_sized("/v/b_av1.mkv", 60.0, "av1", 12_000_000),
        mock_fp_sized("/v/h264_clip.mkv", 5.0, "h264", 40_000_000),
        mock_fp_sized("/v/av1_clip.mkv", 5.0, "av1", 40_000_000),
    ];
    let run = armed(vec![vec![0, 1, 2, 3, 4]], &fps, &all_compared(5));
    assert_eq!(
        run.gone(),
        vec!["/v/av1_clip.mkv", "/v/c_denser.mkv", "/v/h264_clip.mkv"]
    );
}

#[test]
fn test_a_shorter_copy_still_loses_to_a_different_codec() {
    let fps = vec![
        mock_fp_coded("/v/long_av1.mkv", 120.0, "av1"),
        mock_fp_coded("/v/short_h264.mkv", 60.0, "h264"),
    ];
    let run = armed(vec![vec![0, 1]], &fps, &all_compared(2));
    assert_eq!(run.removed, vec!["/v/short_h264.mkv"]);
}

#[test]
fn test_failed_deletion_is_recorded_for_the_summary_and_exit_code() {
    let missing = "/nonexistent/vid-fp/definitely-not-here.mp4";
    let fps = vec![mock_fp_at("/v/keep.mkv", 60.0), mock_fp_at(missing, 10.0)];
    let look = |x: usize| if x == 1 { on_disk(Look::Unreadable) } else { whole(&fps[x]) };
    let run = run_with(
        &vec![vec![0, 1]],
        &fps,
        &all_compared(2),
        0,
        Some(Disposal::Permanent),
        true,
        &look,
        &|_| false,
    );
    assert_eq!(run.stats.delete_failed.count(), 1);
    assert_eq!(run.stats.delete_stale.count(), 0);
    assert!(run.stats.had_problems());
    assert!(run.removed.is_empty());
    assert!(run.gone().is_empty());
    assert_eq!(run.action(0, 1), "FAILED");
}

#[test]
fn a_declined_run_is_a_report_and_needs_no_nudge() {
    let fps = vec![mock_fp_at("/v/keep.mkv", 60.0), mock_fp_at("/v/dupe.mkv", 10.0)];
    let look = |x: usize| whole(&fps[x]);
    let run = run_with(
        &vec![vec![0, 1]],
        &fps,
        &all_compared(2),
        0,
        Some(Disposal::Permanent),
        false,
        &look,
        &|_| true,
    );
    assert!(run.results.declined);
    assert!(run.results.disposal.is_none());
    assert!(run.removed.is_empty());
    assert_eq!(run.action(0, 1), "DELETE");
    assert!(!run.results.wants_nudge());

    let dry = self::run(vec![vec![0, 1]], &fps, &all_compared(2), None);
    assert!(!dry.results.declined);
    assert_eq!(run.csv(), dry.csv());
    let parts = |r: &Run| {
        let d = r.document(vec![vec![0, 1]], &fps, &all_compared(2));
        let actions: Vec<String> = d.results[0].files.iter().map(|f| f.action.clone()).collect();
        let s = &d.summary;
        (
            actions,
            (s.total_groups, s.total_files_matched, s.files_marked_delete, s.reclaimable_bytes),
            (s.deletion_enabled, s.mode.clone(), s.move_to.clone()),
            (s.files_removed, s.files_unlinked, s.files_failed, s.files_changed),
        )
    };
    assert_eq!(parts(&run), parts(&dry));
}

#[test]
fn a_run_that_does_not_act_looks_at_nothing_and_removes_nothing() {
    let fps = vec![mock_fp_at("/v/keep.mkv", 60.0), mock_fp_at("/v/dupe.mkv", 10.0)];
    let groups = vec![vec![0, 1]];
    let look = |x: usize| -> OnDisk { panic!("nothing is to be looked at, not even {}", x) };
    let remove = |x: usize| -> bool { panic!("nothing is to be removed, not even {}", x) };
    let index = all_compared(2);
    let dry = run_with(&groups, &fps, &index, 0, None, true, &look, &remove);
    assert_eq!(dry.results.fates.delete, vec![1]);
    let armed = Some(Disposal::Permanent);
    let declined = run_with(&groups, &fps, &index, 0, armed, false, &look, &remove);
    assert!(declined.results.declined);
}

#[test]
fn an_armed_run_asks_only_for_its_targets() {
    let mut fps = vec![mock_fp_at("/v/keep.mkv", 60.0), mock_fp_at("/v/dupe.mkv", 10.0)];
    fps.push(mock_fp_at("/v/unmeasured.mkv", 0.0));
    let look = |x: usize| {
        assert_eq!(x, 1);
        whole(&fps[x])
    };
    let remove = |x: usize| {
        assert_eq!(x, 1);
        true
    };
    let run = run_with(
        &vec![vec![0, 1, 2]],
        &fps,
        &all_compared(3),
        0,
        Some(Disposal::Permanent),
        true,
        &look,
        &remove,
    );
    assert_eq!(run.removed, vec!["/v/dupe.mkv"]);
    assert!(run.results.fates.review[2]);
}

#[test]
fn a_cell_with_a_separator_is_quoted() {
    let fps = vec![mock_fp_at("/v/a;b \"c\".mkv", 60.0)];
    let csv = run(vec![vec![0]], &fps, &all_compared(1), None).csv();
    assert!(csv.contains("group_1;KEEP;\"/v/a;b \"\"c\"\".mkv\";00:01:00;"), "{}", csv);
}

#[test]
fn what_a_path_is_a_name_for() {
    assert_eq!(on_disk(Look::Unreadable).alias, Alias::Sole);
    assert_eq!(on_disk(Look::Unreadable).size, None);
    assert_eq!(on_disk(Look::Link { target: Some(3) }).alias, Alias::Symlink);
    assert_eq!(on_disk(Look::File { size: 3, names: 2 }).alias, Alias::HardLink);
    assert_eq!(on_disk(Look::File { size: 3, names: 1 }).alias, Alias::Sole);
    assert_eq!(on_disk(Look::File { size: 3, names: 1 }).size, Some(3));
}
