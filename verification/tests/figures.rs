//! How figures are written, and what getting rid of a file takes.

use vid_fp::display::{
    clock, format_bitrate, format_codec, format_duration, format_frame_rate, format_quality,
    format_shared, format_size,
};
use vid_fp::disposal::{
    aliased_line, dispose_one, disposed_line, mirrored, move_under, next_step, on_disk,
    trouble_lines, Disposal, Fate, Look, MoveEvent, MoveStep,
};
use vid_fp::overlap::{Footage, Share};
use vid_fp::quantity::{scale, Rate, Seconds};
use vid_fp::stats::RunStats;

#[test]
fn sizes_are_written_in_binary_units() {
    assert_eq!(format_size(0), "0B");
    assert_eq!(format_size(1023), "1023B");
    assert_eq!(format_size(1024), "1.0KB");
    assert_eq!(format_size(1_048_576), "1.0MB");
    assert_eq!(format_size(4_080_218_931), "3.8GB");
    assert_eq!(format_size(1 << 40), "1.0TB");
}

#[test]
fn bit_rates_are_written_in_decimal_units() {
    assert_eq!(format_bitrate(999), "999bps");
    assert_eq!(format_bitrate(139_810), "140kbps");
    assert_eq!(format_bitrate(1_048_576), "1.0Mbps");
}

#[test]
fn quality_is_bits_in_each_frame() {
    assert_eq!(format_quality(0), "-");
    assert_eq!(format_quality(999), "999b/f");
    assert_eq!(format_quality(4_660), "4.7kb/f");
    assert_eq!(format_quality(34_952), "35.0kb/f");
    assert_eq!(format_quality(2_500_000), "2.5Mb/f");
}

#[test]
fn lengths_are_written_as_clocks() {
    assert_eq!(clock(0), "00:00:00");
    assert_eq!(clock(3661), "01:01:01");
    assert_eq!(clock(360_000), "100:00:00");
    assert_eq!(format_duration(Seconds::from_ms(60_000)), "00:01:00");
}

#[test]
fn frame_rates_carry_only_the_digits_they_need() {
    assert_eq!(format_frame_rate(Rate::from_fraction(30, 1)), "30fps");
    assert_eq!(format_frame_rate(Rate::from_fraction(30_000, 1001)), "29.97fps");
    assert_eq!(format_frame_rate(Rate::from_fraction(25, 2)), "12.5fps");
    assert_eq!(format_frame_rate(Rate::unknown()), "-");
}

#[test]
fn an_unnamed_codec_is_a_dash() {
    assert_eq!(format_codec(""), "-");
    assert_eq!(format_codec("h264"), "h264");
}

#[test]
fn shared_footage_is_written_in_tenths() {
    let f = Footage { share: Share::new(714, 10_000), runtime: Seconds::from_ms(9_000) };
    assert_eq!(format_shared(Some(f)), "0.6s");
    assert_eq!(format_shared(None), "-");
}

#[test]
fn scaling_does_not_lose_a_wide_product() {
    assert_eq!(scale(u64::MAX, 1 << 64, 1 << 64), u64::MAX);
    assert_eq!(scale(u64::MAX, 1 << 64, 1 << 65), u64::MAX / 2);
    assert_eq!(scale(10, 10, 3), 33);
}

#[test]
fn a_pass_says_what_it_did_in_the_words_of_its_mode() {
    assert_eq!(
        disposed_line(&Disposal::Permanent, 2, 2048),
        "Permanently deleted 2 file(s), 2.0KB freed."
    );
    assert_eq!(
        disposed_line(&Disposal::Trash, 2, 2048),
        "Moved 2 file(s) to trash (2.0KB total)."
    );
    assert_eq!(
        disposed_line(&Disposal::MoveTo("/dest".to_string()), 2, 2048),
        "Moved 2 file(s) (2.0KB total) under /dest."
    );
}

#[test]
fn nothing_is_said_where_nothing_was_left_out() {
    assert_eq!(aliased_line(0, 0), "");
    assert!(aliased_line(1, 1024).starts_with("\n1 file(s) were another name"));
    assert_eq!(trouble_lines(0, 0), "");
    assert_eq!(trouble_lines(1, 0), "\n1 file(s) could not be removed (see errors above).");
    assert!(trouble_lines(0, 2).starts_with("\n2 file(s) changed on disk"));
}

#[test]
fn the_labels_of_what_was_done() {
    assert_eq!(Disposal::Trash.done_label(false), "DELETED");
    assert_eq!(Disposal::Permanent.done_label(false), "DELETED");
    assert_eq!(Disposal::MoveTo("/d".to_string()).done_label(false), "MOVED");
    assert_eq!(Disposal::Permanent.done_label(true), "UNLINKED");
    assert_eq!(Disposal::Trash.mode(), "trash");
    assert_eq!(Disposal::Permanent.mode(), "permanent");
}

#[test]
fn one_file_is_disposed_of_once_it_is_seen_to_be_unchanged() {
    let mut stats = RunStats::default();
    let same = on_disk(Look::File { size: 10, names: 1 });
    let fate = dispose_one("/v/a", 10, &Disposal::Permanent, same, &|| true, &mut stats);
    assert_eq!(fate, Fate::Done { aliased: false });
    assert!(!stats.had_problems());

    let grown = on_disk(Look::File { size: 11, names: 1 });
    let fate =
        dispose_one("/v/a", 10, &Disposal::Trash, grown, &|| panic!("not to be touched"), &mut stats);
    assert_eq!(fate, Fate::Changed);
    assert_eq!(stats.delete_stale.samples()[0], "/v/a: 10 bytes when scanned, 11 bytes now");

    let gone = on_disk(Look::Unreadable);
    let fate = dispose_one("/v/a", 10, &Disposal::Trash, gone, &|| false, &mut stats);
    assert_eq!(fate, Fate::Failed);
    assert_eq!(stats.delete_failed.samples()[0], "/v/a");
}

#[test]
fn a_path_is_mirrored_under_the_destination() {
    assert_eq!(mirrored("/dest", "/v/season 1/ep.mkv"), "/dest/v/season 1/ep.mkv");
    assert_eq!(mirrored("/dest", "v/ep.mkv"), "/dest/v/ep.mkv");
    assert_ne!(mirrored("/dest", "/a/b.mkv"), mirrored("/dest", "/b/b.mkv"));
}

#[test]
fn a_file_is_removed_only_once_its_copy_stands() {
    let step = |event| next_step("/a", "/b", event, 18);
    assert!(matches!(step(MoveEvent::Looked { occupied: false }), MoveStep::Rename));
    assert!(matches!(step(MoveEvent::Renamed), MoveStep::Done));
    let across = MoveEvent::RenameFailed { code: Some(18), detail: "x".to_string() };
    assert!(matches!(step(across), MoveStep::Copy));
    assert!(matches!(step(MoveEvent::Copied), MoveStep::Unlink));
    assert!(matches!(step(MoveEvent::Unlinked), MoveStep::Done));

    match step(MoveEvent::Looked { occupied: true }) {
        MoveStep::Failed(m) => assert_eq!(
            m,
            "Failed to move /a: /b already exists (an earlier run moved a file from this path)"
        ),
        _ => panic!("what is there is never replaced"),
    }
    let denied = MoveEvent::RenameFailed { code: Some(13), detail: "denied".to_string() };
    match step(denied) {
        MoveStep::Failed(m) => assert_eq!(m, "Failed to move /a to /b: denied"),
        _ => panic!("a refused rename is a failure"),
    }
    match step(MoveEvent::CopyFailed { detail: "full".to_string() }) {
        MoveStep::Undo(m) => assert_eq!(m, "full"),
        _ => panic!("a copy that failed is removed"),
    }
    match step(MoveEvent::UnlinkFailed { detail: "denied".to_string() }) {
        MoveStep::Undo(m) => {
            assert_eq!(m, "Failed to remove /a after copying it to /b: denied")
        }
        _ => panic!("a copy whose original stays is removed"),
    }
}

#[test]
fn the_system_says_what_crossing_a_device_is() {
    let across = MoveEvent::RenameFailed { code: Some(libc::EXDEV), detail: String::new() };
    assert!(matches!(move_under("/a", "/b", across), MoveStep::Copy));
    let denied = MoveEvent::RenameFailed { code: Some(libc::EACCES), detail: String::new() };
    assert!(matches!(move_under("/a", "/b", denied), MoveStep::Failed(_)));
}
