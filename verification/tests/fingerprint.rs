//! From packets and frames to a fingerprint: timing, pictures, weights and verdicts.

use vid_fp::container::{
    codec_cost, duration_seconds, frame_rate_of, header_is_complete, scale_up, thread_share,
    too_short, weigh, weigh_bytes, weigh_decode, Header, Thinning, WeighStep, Weighing,
    MAX_DECODE_THREADS,
};
use vid_fp::demux::{frame_time, spacing, Clock, Step, Walk, MAX_CONSECUTIVE_DEMUX_ERRORS};
use vid_fp::fingerprint::VideoFingerprint;
use vid_fp::media::{
    first_look, is_passing_failure, is_transient, not_media, second_look, unrecognised, Cause,
    NotMedia, Probe, FIRST_PROBE_BYTES, SECOND_PROBE_BYTES,
};
use vid_fp::overlap::Share;
use vid_fp::picture::{auto_crop, hash_of, resample, Crop, FrameStack, COEFFICIENTS, FRAME_STRIDE, THUMB};
use vid_fp::profile::{fingerprint_video, Source, Spectrum};
use vid_fp::quantity::{Rate, Seconds};
use vid_fp::sampling::{assemble, reported_length, sample_times};

fn seconds(s: f64) -> Seconds {
    Seconds::from_ms((s * 1000.0).round() as u64)
}

/// A length in seconds.
fn length(s: Seconds) -> f64 {
    let (num, den) = s.parts();
    num as f64 / den as f64
}

fn timing_only(size: u64, duration: Seconds, frame_rate: Rate) -> VideoFingerprint {
    VideoFingerprint {
        path: "mock.mp4".to_string(),
        valid_hashes: vec![],
        valid_t_start: vec![],
        valid_t_end: vec![],
        total_ms: 1,
        width: 1920,
        height: 1080,
        duration,
        file_size: size,
        codec: "h264".to_string(),
        frame_rate,
    }
}

#[test]
fn test_the_last_sample_is_extended_by_a_real_average_gap() {
    let times: Vec<Option<u32>> = (0..6).map(|i| Some(i * 1000)).collect();
    let (out, total_ms) = sample_times(&times, seconds(4.5));

    assert_eq!(out.len(), 6);
    assert_eq!(total_ms, 6000, "5000 + one 1000 ms gap, not 5000 + 833");
}

#[test]
fn test_a_single_sample_still_gets_a_span() {
    let (_, total_ms) = sample_times(&vec![Some(0)], seconds(0.0));
    assert!(total_ms >= 1, "a lone sample must stand for something, got {}", total_ms);

    let (out, total_ms) = sample_times(&vec![], seconds(0.0));
    assert!(out.is_empty());
    assert!(total_ms >= 1);
}

#[test]
fn test_a_known_runtime_is_left_alone() {
    let times: Vec<Option<u32>> = (0..6).map(|i| Some(i * 1000)).collect();
    let (_, total_ms) = sample_times(&times, seconds(10.0));
    assert_eq!(total_ms, 10_000);
}

#[test]
fn a_missing_time_spreads_the_samples_evenly() {
    let (out, total_ms) = sample_times(&vec![Some(0), None, Some(9), Some(9)], seconds(8.0));
    assert_eq!(out, vec![0, 2000, 4000, 6000]);
    assert_eq!(total_ms, 8000);
}

#[test]
fn test_quality_is_bitrate_spent_per_frame() {
    let fp = timing_only(7_864_320, seconds(60.0), Rate::from_fraction(32, 1));
    assert_eq!(fp.bitrate(), 1_048_576);
    assert_eq!(fp.quality(), 32_768);
}

#[test]
fn test_quality_is_unknown_rather_than_zero_when_the_frame_rate_is() {
    let fp = timing_only(7_864_320, seconds(60.0), Rate::unknown());
    assert!(fp.bitrate() > 0, "the bitrate is still perfectly knowable");
    assert_eq!(fp.quality(), 0);
}

#[test]
fn a_container_without_a_duration_has_no_bitrate() {
    let length = duration_seconds(i64::MIN, 1, 90_000, i64::MIN);
    assert!(!length.is_positive());
    let fp = timing_only(1000, length, Rate::from_fraction(25, 1));
    assert_eq!(fp.bitrate(), 0);
    assert_eq!(fp.quality(), 0);
}

#[test]
fn a_stream_states_its_own_length_before_its_container_does() {
    assert_eq!(length(duration_seconds(180_000, 1, 90_000, 9_000_000)), 2.0);
    assert_eq!(length(duration_seconds(0, 1, 90_000, 9_000_000)), 9.0);
    assert_eq!(length(duration_seconds(180_000, 0, 0, 9_000_000)), 9.0);
    assert_eq!(length(duration_seconds(-1, 1, 90_000, -1)), 0.0);
}

#[test]
fn a_frame_rate_is_the_first_one_stated_and_a_plausible_one() {
    let two = seconds(2.0);
    assert_eq!(frame_rate_of((30_000, 1001), (25, 1), 50, two).parts(), (30_000, 1001));
    assert_eq!(frame_rate_of((0, 0), (25, 1), 50, two).parts(), (25, 1));
    let counted = frame_rate_of((0, 0), (0, 1), 50, two).parts();
    assert_eq!(counted.0, 25 * counted.1);
    assert_eq!(frame_rate_of((0, 0), (0, 0), 0, two).parts(), (0, 1));
    assert_eq!(frame_rate_of((90_000, 1), (0, 0), 0, two).parts(), (0, 1));
}

#[test]
fn a_header_is_complete_only_with_every_answer() {
    let header = Header {
        codec_known: true,
        width: 640,
        height: 480,
        extradata: 10,
        tb_den: 90_000,
        duration: seconds(1.0),
        frame_rate: Rate::from_fraction(25, 1),
    };
    assert!(header_is_complete(&Some(header)));
    assert!(!header_is_complete(&None));
    assert!(!header_is_complete(&Some(Header { extradata: 0, ..header })));
    assert!(!header_is_complete(&Some(Header { duration: seconds(0.0), ..header })));
    assert!(!header_is_complete(&Some(Header { frame_rate: Rate::unknown(), ..header })));
}

#[test]
fn the_weigher_and_the_decoder_use_one_floor() {
    let fixture = seconds(1.0);
    let opened = Weighing::Opened { stream: true, complete: true, length: fixture };
    assert!(too_short(fixture, seconds(3600.0)));
    assert!(matches!(weigh_decode(opened, seconds(3600.0)), WeighStep::TooShort(_)));
    assert!(too_short(fixture, seconds(1.01)));
    assert!(matches!(weigh_decode(opened, seconds(1.01)), WeighStep::TooShort(_)));
    assert!(!too_short(fixture, seconds(0.99)));
    assert!(matches!(weigh_decode(opened, seconds(0.99)), WeighStep::Count));
    assert!(matches!(weigh_decode(opened, seconds(0.0)), WeighStep::Count));
    assert!(!too_short(seconds(0.0), seconds(3600.0)), "an unknown length is not short");
}

#[test]
fn a_file_is_weighed_one_question_at_a_time() {
    let off = seconds(0.0);
    let bare = Weighing::Opened { stream: false, complete: false, length: off };
    assert!(matches!(weigh_decode(bare, off), WeighStep::ProbeForStream));
    let no = Weighing::ProbedForStream { stream: false };
    assert!(matches!(weigh_decode(no, off), WeighStep::NoVideo));
    let yes = Weighing::ProbedForStream { stream: true };
    assert!(matches!(weigh_decode(yes, off), WeighStep::ByBytes));
    let empty = Weighing::Counted { keyframes: 0, sought: false };
    assert!(matches!(weigh_decode(empty, off), WeighStep::Seek));
    let still = Weighing::Counted { keyframes: 0, sought: true };
    assert!(matches!(weigh_decode(still, off), WeighStep::Size));
    let dark = Weighing::Sized { pixels: 0, probed: false };
    assert!(matches!(weigh_decode(dark, off), WeighStep::ProbeForSize));
    let dim = Weighing::Sized { pixels: 0, probed: true };
    assert!(matches!(weigh_decode(dim, off), WeighStep::ByBytes));
    let seen = Weighing::Sized { pixels: 100, probed: false };
    assert!(matches!(weigh_decode(seen, off), WeighStep::Weigh));
}

fn thinning(interval: f64, least: u32) -> Thinning {
    Thinning { interval: seconds(interval), min_samples: Share::new(least, 1) }
}

#[test]
fn a_weight_is_the_keyframes_decoded_times_their_pixels() {
    let every = thinning(0.0, 4);
    assert_eq!(weigh(10, 1000, seconds(20.0), "h264", every), Some(10_000));
    assert_eq!(weigh(10, 1000, seconds(20.0), "hevc", every), Some(17_000));
    assert_eq!(weigh(10, 1000, seconds(20.0), "av1", every), Some(8_000));
    assert_eq!(weigh(0, 1000, seconds(0.0), "h264", every), None);
    assert!(weigh(0, 1000, seconds(20.0), "h264", every).unwrap() >= 1);
    assert_eq!(codec_cost("vp9"), 10);
}

#[test]
fn subsampling_never_costs_more() {
    let full = weigh(100, 1000, seconds(100.0), "h264", thinning(0.0, 1)).unwrap();
    let thinned = weigh(100, 1000, seconds(100.0), "h264", thinning(3600.0, 1)).unwrap();
    assert!(thinned <= full);
    assert_eq!(thinned, 1000);
}

#[test]
fn bytes_weigh_something_however_few() {
    assert_eq!(weigh_bytes(0), 1);
    assert_eq!(weigh_bytes(1000), 3800);
}

#[test]
fn a_share_of_threads_is_at_least_one_and_at_most_so_many() {
    assert_eq!(thread_share(0), 1);
    assert_eq!(thread_share(4), 4);
    assert_eq!(thread_share(1000), MAX_DECODE_THREADS);
}

#[test]
fn rounding_up_is_exact() {
    assert_eq!(scale_up(7, 3, 2), 11);
    assert_eq!(scale_up(8, 3, 2), 12);
    assert_eq!(scale_up(u64::MAX, 4, 2), u64::MAX);
}

#[test]
fn a_clock_that_runs_forwards_is_kept_to_the_tick() {
    let mut clock = Clock::new();
    let times: Vec<i64> = [-1001, 28_028, 57_057].iter().map(|&t| clock.tick(t)).collect();
    assert_eq!(times, vec![0, 29_029, 58_058]);
    assert!(!clock.restarted);
}

#[test]
fn a_clock_that_restarts_is_charged_the_last_gap() {
    let mut clock = Clock::new();
    let times: Vec<i64> = [0, 100, 200, 0, 100].iter().map(|&t| clock.tick(t)).collect();
    assert_eq!(times, vec![0, 100, 200, 300, 400]);
    assert!(clock.restarted);
}

#[test]
fn a_spliced_file_keeps_both_segments() {
    let mut walk = Walk::new(None, true);
    let mut stamps = Vec::new();
    for ts in [0, 90_000, 180_000, 0, 90_000, 180_000] {
        match walk.on_packet(true, Some(ts), None) {
            Step::Key { stamp, keep, seek } => {
                assert!(keep);
                assert_eq!(seek, None);
                stamps.push(stamp.unwrap());
            }
            Step::Skip => panic!("a keyframe was dropped"),
        }
    }
    assert_eq!(stamps, vec![0, 90_000, 180_000, 270_000, 360_000, 450_000]);
}

#[test]
fn a_demuxer_that_reads_everything_is_jumped_through() {
    let mut walk = Walk::new(None, false);
    assert_eq!(walk.on_packet(false, Some(1), None), Step::Skip);
    assert_eq!(
        walk.on_packet(true, Some(10), None),
        Step::Key { stamp: Some(0), keep: true, seek: Some(11) }
    );
    walk.on_seek(true);
    assert_eq!(walk.on_packet(true, Some(10), None), Step::Skip, "met before");
    assert_eq!(
        walk.on_packet(true, Some(50), None),
        Step::Key { stamp: Some(40), keep: true, seek: Some(51) }
    );
    walk.on_seek(false);
    assert_eq!(
        walk.on_packet(true, None, Some(90)),
        Step::Key { stamp: Some(80), keep: true, seek: None }
    );
}

#[test]
fn thinned_samples_keep_their_distance() {
    let mut walk = Walk::new(Some(200), false);
    walk.on_packet(false, None, None);
    assert_eq!(
        walk.on_packet(true, Some(0), None),
        Step::Key { stamp: Some(0), keep: true, seek: Some(200) }
    );
    assert_eq!(
        walk.on_packet(true, Some(150), None),
        Step::Key { stamp: Some(150), keep: false, seek: Some(200) }
    );
    assert_eq!(
        walk.on_packet(true, Some(210), None),
        Step::Key { stamp: Some(210), keep: true, seek: Some(410) }
    );
    assert_eq!(
        walk.on_packet(true, None, None),
        Step::Key { stamp: None, keep: true, seek: None }
    );
    assert!(walk.seeking_broken);
}

#[test]
fn a_demuxer_that_never_says_it_is_done_is_stopped() {
    let mut walk = Walk::new(None, false);
    for _ in 1..MAX_CONSECUTIVE_DEMUX_ERRORS {
        assert!(!walk.on_error(false));
    }
    assert!(walk.on_error(false));
    walk.on_read();
    assert!(!walk.on_error(false));
    assert!(walk.on_error(true), "an input with nothing left is finished");
}

#[test]
fn a_floor_of_nothing_leaves_the_interval_standing() {
    let three = seconds(3.0);
    assert_eq!(spacing(thinning(2.0, 12), three, 1, 1000), Some(250));
    assert_eq!(spacing(thinning(2.0, 0), three, 1, 1000), Some(2000));
    assert_eq!(spacing(thinning(0.0, 0), three, 1, 1000), None);
    assert_eq!(spacing(thinning(2.0, 12), seconds(0.0), 1, 1000), None);
    assert_eq!(spacing(thinning(2.0, 12), three, 0, 1), None);
}

#[test]
fn a_frame_is_shown_at_its_time() {
    assert_eq!(frame_time(Some(90_000), 1, 90_000), Some(1000));
    assert_eq!(frame_time(Some(45_001), 1, 90_000), Some(500));
    assert_eq!(frame_time(None, 1, 90_000), None);
    assert_eq!(frame_time(Some(1), 0, 90_000), None);
    assert_eq!(frame_time(Some(i64::MAX), 1, 1), Some(u32::MAX));
}

#[test]
fn a_file_no_demuxer_recognises_is_refused_at_the_first_look() {
    assert_eq!(first_look(0, 8000), Probe::Refuse(NotMedia { bytes: 2048, score: 0 }));
    let once = |len: usize| {
        assert_eq!(len, FIRST_PROBE_BYTES, "the first look settled it");
        0
    };
    let found = unrecognised(8000, &once).unwrap();
    assert!(found.message().contains("2048"), "{}", found.message());
    assert_eq!(
        found.message(),
        "no demuxer recognised the first 2048 bytes of this file (the best guess scored 0 of \
100, which libavformat treats as no evidence)"
    );
}

#[test]
fn a_claimed_name_earns_a_second_look() {
    assert_eq!(first_look(1, 30_000), Probe::LookAgain);
    let found = unrecognised(30_000, &|_: usize| 1).unwrap();
    assert!(found.message().contains("16384"), "{}", found.message());
    let saved = |len: usize| if len == FIRST_PROBE_BYTES { 1 } else { 50 };
    assert_eq!(unrecognised(30_000, &saved), None);
    assert_eq!(second_look(50, SECOND_PROBE_BYTES), Probe::Open);
}

#[test]
fn a_short_file_is_refused_over_the_bytes_it_has() {
    let found = unrecognised(20, &|_: usize| 1).unwrap();
    assert!(found.message().contains("first 20 bytes"), "{}", found.message());
    assert!(!found.message().contains("16384"));
}

#[test]
fn an_empty_file_is_refused_for_being_empty() {
    let found = unrecognised(0, &|_: usize| 0).unwrap();
    assert_eq!(found.message(), "this file is empty");
}

#[test]
fn a_real_video_is_opened() {
    assert_eq!(unrecognised(8000, &|_: usize| 100), None);
}

#[test]
fn a_verdict_is_found_wherever_it_was_wrapped() {
    let verdict = NotMedia { bytes: 20, score: 1 };
    assert_eq!(not_media(&vec![Cause::Other, Cause::NotMedia(verdict)]), Some(verdict));
    assert_eq!(not_media(&vec![Cause::Other, Cause::Input(None)]), None);
}

#[test]
fn a_failure_about_the_moment_is_not_about_the_file() {
    let codes = vec![libc::EMFILE, libc::ENOMEM];
    assert!(is_passing_failure(&vec![Cause::Other, Cause::Demuxer(libc::EMFILE)], &codes));
    assert!(is_passing_failure(&vec![Cause::Input(None)], &codes));
    assert!(!is_passing_failure(&vec![Cause::Input(Some(libc::EISDIR))], &codes));
    assert!(!is_passing_failure(&vec![Cause::Other], &codes));
}

#[test]
fn the_system_names_its_own_errors() {
    assert!(is_transient(&vec![Cause::Demuxer(libc::EMFILE)]));
    assert!(is_transient(&vec![Cause::Input(Some(libc::EIO))]));
    assert!(!is_transient(&vec![Cause::Demuxer(libc::EINVAL)]));
    assert!(!is_transient(&vec![]));
}

#[test]
fn a_repeated_frame_is_kept_once() {
    let mut stack = FrameStack::new();
    assert!(stack.push(vec![1; FRAME_STRIDE], Some(0)));
    assert!(!stack.push(vec![1; FRAME_STRIDE], Some(10)));
    assert!(stack.push(vec![2; FRAME_STRIDE], Some(20)));
    assert_eq!(stack.times, vec![Some(0), Some(20)]);
    assert_eq!(stack.sums[0], 3);
    assert_eq!(stack.squares[0], 5);
}

/// A frame whose middle rows hold one value and whose bars hold black.
fn letterboxed(value: u8) -> Vec<u8> {
    (0..FRAME_STRIDE).map(|i| if (8..56).contains(&(i / 64)) { value } else { 0 }).collect()
}

#[test]
fn bars_are_cropped_one_line_inside() {
    let mut stack = FrameStack::new();
    stack.push(letterboxed(0), Some(0));
    stack.push(letterboxed(200), Some(10));
    let crop = auto_crop(&stack);
    assert_eq!((crop.top, crop.bottom, crop.left, crop.right), (9, 54, 0, 63));
}

#[test]
fn a_still_video_is_not_cropped() {
    let mut stack = FrameStack::new();
    stack.push(vec![7; FRAME_STRIDE], None);
    let crop = auto_crop(&stack);
    assert_eq!((crop.top, crop.bottom, crop.left, crop.right), (0, 63, 0, 63));
}

#[test]
fn an_even_frame_stays_even() {
    let whole = Crop { top: 0, bottom: 63, left: 0, right: 63 };
    let thumb = resample(&vec![9; FRAME_STRIDE], whole);
    assert_eq!(thumb.len(), THUMB * THUMB);
    assert!(thumb.iter().all(|&v| v == 9 * 64 * 64));
}

#[test]
fn a_sample_is_the_average_of_what_it_covers() {
    let whole = Crop { top: 0, bottom: 63, left: 0, right: 63 };
    let frame: Vec<u8> = (0..FRAME_STRIDE).map(|i| if i % 64 < 2 { 100 } else { 0 }).collect();
    let thumb = resample(&frame, whole);
    assert_eq!(thumb[0], 50 * 64 * 64);
    assert_eq!(thumb[1], 0);
}

#[test]
fn a_hash_has_one_bit_for_each_coefficient_above_the_middle() {
    let rising: Vec<i32> = (0..COEFFICIENTS as i32).collect();
    assert_eq!(hash_of(&rising), 0x0000_0000_FFFF_FFFF);
    let falling: Vec<i32> = rising.iter().map(|c| -c).collect();
    assert_eq!(hash_of(&falling), 0xFFFF_FFFF_0000_0000);
    assert_eq!(hash_of(&vec![5; COEFFICIENTS]), 0xFFFF_FFFF_0000_0000);
}

#[test]
fn a_hash_has_half_of_its_bits_set_whatever_the_frame_shows() {
    let mut one_high = vec![0; COEFFICIENTS];
    one_high[1] = 1000;
    assert_eq!(hash_of(&one_high).count_ones(), 32);
    one_high[63] = 7;
    assert_eq!(hash_of(&one_high), 0xFFFF_FFFE_0000_0001);
    let few: Vec<i32> = (0..COEFFICIENTS as i32).map(|i| i % 3).collect();
    assert_eq!(hash_of(&few).count_ones(), 32);
    assert_eq!((hash_of(&one_high) ^ hash_of(&few)).count_ones() % 2, 0);
}

#[test]
fn frames_are_put_in_order_and_runs_of_one_hash_joined() {
    let line = assemble(
        &vec![3, 1, 1, 2],
        &vec![false, false, false, true],
        &vec![300, 0, 100, 200],
        400,
    );
    assert_eq!(line.hashes, vec![1, 3]);
    assert_eq!(line.t_start, vec![0, 300]);
    assert_eq!(line.t_end, vec![200, 400]);
}

#[test]
fn a_restarted_clock_reports_what_was_sampled_where_that_is_longer() {
    assert_eq!(length(reported_length(seconds(2.0), false, 5000)), 2.0);
    assert_eq!(length(reported_length(seconds(2.0), true, 5000)), 5.0);
    assert_eq!(length(reported_length(seconds(9.0), true, 5000)), 9.0);
}

fn source(duration: Seconds) -> Source {
    Source {
        path: "/v/a.mkv".to_string(),
        width: 1920,
        height: 1080,
        duration,
        file_size: 12_345,
        codec: "h264".to_string(),
        frame_rate: Rate::from_fraction(25, 1),
    }
}

#[test]
fn a_fingerprint_is_put_together_from_its_frames() {
    let mut stack = FrameStack::new();
    for (i, value) in [10u8, 90, 10].iter().enumerate() {
        let frame: Vec<u8> = (0..FRAME_STRIDE).map(|p| value ^ (p % 7) as u8).collect();
        stack.push(frame, Some(i as u32 * 1000));
    }
    let pixels = std::cell::Cell::new(0);
    let transform = |thumb: &Vec<u32>, per: u32| {
        pixels.set(per);
        let base = (thumb[0] / per) as i32;
        Spectrum {
            order: (0..64).map(|i| if base > 50 { i } else { -i }).collect(),
            featureless: false,
        }
    };
    let fp = fingerprint_video(source(seconds(3.0)), &stack, false, &transform).unwrap();
    assert_eq!(fp.path, "/v/a.mkv");
    assert_eq!(fp.file_size, 12_345, "the size is the one the caller measured");
    assert_eq!(
        fp.valid_hashes,
        vec![0xFFFF_FFFF_0000_0000, 0x0000_0000_FFFF_FFFF, 0xFFFF_FFFF_0000_0000]
    );
    assert_eq!(fp.valid_t_start, vec![0, 1000, 2000]);
    assert_eq!(fp.valid_t_end, vec![1000, 2000, 3000]);
    assert_eq!(fp.total_ms, 3000);
    assert_eq!(length(fp.duration), 3.0);
    assert_eq!(pixels.get(), 64 * 64);
}

#[test]
fn a_featureless_frame_is_left_out() {
    let mut stack = FrameStack::new();
    stack.push(vec![1; FRAME_STRIDE], Some(0));
    stack.push(vec![2; FRAME_STRIDE], Some(500));
    let transform = |thumb: &Vec<u32>, per: u32| Spectrum {
        order: (0..64).collect(),
        featureless: thumb[0] / per == 1,
    };
    let fp = fingerprint_video(source(seconds(1.0)), &stack, true, &transform).unwrap();
    assert_eq!(fp.valid_t_start, vec![500]);
    assert_eq!(fp.valid_t_end, vec![1000]);
}

#[test]
fn without_frames_there_is_no_fingerprint() {
    let transform =
        |_: &Vec<u32>, _: u32| Spectrum { order: (0..64).collect(), featureless: false };
    assert!(fingerprint_video(source(seconds(1.0)), &FrameStack::new(), false, &transform).is_none());
}
