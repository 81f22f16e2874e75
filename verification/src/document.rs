//! A report as structured data: the figures of its rows as numbers, every link of every
//! file, and the summary.

use crate::compare::{GroupLink, MatchIndex};
use crate::disposal::{mode_text, Disposal};
use crate::display::{
    bitrate_text, clock, clock_text, codec_text, format_bitrate, format_codec, format_duration,
    format_quality, format_size, is_thousandths, nearest_up, quality_text, rate_thousandths,
    rounded_up, size_text, FIGURE_LIMIT,
};
use crate::fates::{
    in_range, is_resolved, is_single_ranking, is_single_tiering,
    lemma_one_ranking_leads_to_one_end, Priority,
};
use crate::fingerprint::{bitrate_of, quality_of, VideoFingerprint};
use crate::overlap::{footage_den, footage_num, Footage, Span};
use crate::quantity::{scaled, Seconds};
use crate::report::{
    adds_up, are_grouped, is_grouped, reclaimable_bytes, summary_text, Results,
};
use crate::rows::{
    action, action_text, are_group_rows, are_links, group_name, group_text, length_text, GroupRows,
};
use crate::seqs::lemma_one_ascending;
use crate::text::{decimal, number};
use vstd::prelude::*;

verus! {

/// One link of a file. Lengths of time are in hundredths of a second.
pub struct LinkEntry {
    pub full_path: String,
    pub matched_seconds: Option<u64>,
    pub matched_from: Option<String>,
    pub matched_to: Option<String>,
    pub matched_from_seconds: Option<u64>,
    pub matched_to_seconds: Option<u64>,
}

/// One file of a group. Lengths of time are in hundredths of a second, and its frame
/// rate is in thousandths.
pub struct FileEntry {
    pub action: String,
    pub full_path: String,
    pub length: String,
    pub length_seconds: Option<u64>,
    pub resolution: String,
    pub width: u32,
    pub height: u32,
    pub framerate_fps: Option<u64>,
    pub codec: String,
    pub size: String,
    pub size_bytes: u64,
    pub bitrate: String,
    pub bitrate_bps: u64,
    pub quality: String,
    pub quality_bits_per_frame: Option<u64>,
    /// The file of the strongest link, and what is said of that link.
    pub matched_with: Option<String>,
    pub samples: usize,
    pub matched_seconds: Option<u64>,
    pub matched_from: Option<String>,
    pub matched_to: Option<String>,
    pub matched_from_seconds: Option<u64>,
    pub matched_to_seconds: Option<u64>,
    /// Every link the file has within its group, the strongest first.
    pub matches: Vec<LinkEntry>,
}

/// One group.
pub struct GroupEntry {
    pub group: String,
    pub files: Vec<FileEntry>,
}

/// The figures of a run.
pub struct SummaryEntry {
    pub total_groups: usize,
    pub total_files_matched: usize,
    pub time_elapsed_seconds: u64,
    pub files_marked_delete: usize,
    pub reclaimable_bytes: u64,
    pub deletion_enabled: bool,
    pub mode: String,
    pub move_to: Option<String>,
    pub files_removed: usize,
    pub bytes_removed: u64,
    pub files_unlinked: usize,
    pub bytes_unlinked: u64,
    pub files_failed: usize,
    pub files_changed: usize,
}

/// A whole report.
pub struct Document {
    pub summary: SummaryEntry,
    pub results: Vec<GroupEntry>,
}

/// Whether this is some footage in hundredths of a second, where that fits.
pub open spec fn is_hundredths(f: Footage, t: nat) -> bool {
    if scaled(f.share.part() * 100, f.runtime.num(), footage_den(f)) < FIGURE_LIMIT {
        t == rounded_up(100 * footage_num(f), footage_den(f))
    } else {
        t >= FIGURE_LIMIT
    }
}

/// Whether this is a length of time in hundredths of a second, where that fits.
pub open spec fn is_length_hundredths(length: Seconds, t: nat) -> bool {
    if scaled(100, length.num(), length.den()) < FIGURE_LIMIT {
        t == rounded_up(100 * length.num(), length.den())
    } else {
        t >= FIGURE_LIMIT
    }
}

/// A point in time, in hundredths of a second.
pub open spec fn moment_hundredths(ms: u32) -> nat {
    rounded_up(ms as nat * 100, 1000)
}

/// Whether these are where a stretch lies: as a reader sees it, and in hundredths of a
/// second. Nothing where there is none.
pub open spec fn is_place(
    span: Option<Span>,
    from: Option<String>,
    to: Option<String>,
    from_hundredths: Option<u64>,
    to_hundredths: Option<u64>,
) -> bool {
    match span {
        Some(s) => {
            &&& from matches Some(x) && x@ == clock_text((s.start_ms / 1000) as nat)
            &&& to matches Some(x) && x@ == clock_text((s.end_ms / 1000) as nat)
            &&& from_hundredths matches Some(t) && t == moment_hundredths(s.start_ms)
            &&& to_hundredths matches Some(t) && t == moment_hundredths(s.end_ms)
        },
        None => from is None && to is None && from_hundredths is None && to_hundredths is None,
    }
}

/// Whether this is what is said of one link of a file. Its seconds are unknown where
/// the file's runtime is.
pub open spec fn is_link_entry(
    e: LinkEntry,
    fp: &VideoFingerprint,
    link: GroupLink,
    fps: Seq<VideoFingerprint>,
) -> bool {
    &&& e.full_path@ == fps[link.other as int].path@
    &&& e.matched_seconds is Some <==> fp.duration.num() > 0
    &&& e.matched_seconds matches Some(t) ==> is_hundredths(link.matched_seconds, t as nat)
    &&& is_place(
        link.span,
        e.matched_from,
        e.matched_to,
        e.matched_from_seconds,
        e.matched_to_seconds,
    )
}

/// Whether two texts, where there are any, are the same.
pub open spec fn is_same_text(a: Option<String>, b: Option<String>) -> bool {
    match (a, b) {
        (Some(x), Some(y)) => x@ == y@,
        (None, None) => true,
        _ => false,
    }
}

/// Whether a file's own figures of a link are those of the first link listed: nothing
/// where there is none.
pub open spec fn tells_first_link(e: FileEntry) -> bool {
    if e.matches@.len() > 0 {
        let first = e.matches@[0];
        &&& e.matched_with matches Some(path) && path@ == first.full_path@
        &&& e.matched_seconds == first.matched_seconds
        &&& is_same_text(e.matched_from, first.matched_from)
        &&& is_same_text(e.matched_to, first.matched_to)
        &&& e.matched_from_seconds == first.matched_from_seconds
        &&& e.matched_to_seconds == first.matched_to_seconds
    } else {
        &&& e.matched_with is None
        &&& e.matched_seconds is None
        &&& e.matched_from is None
        &&& e.matched_to is None
        &&& e.matched_from_seconds is None
        &&& e.matched_to_seconds is None
    }
}

/// Whether this is what is said of one file, with these links.
pub open spec fn is_file_entry(
    e: FileEntry,
    action: Seq<char>,
    fp: &VideoFingerprint,
    links: Seq<GroupLink>,
    fps: Seq<VideoFingerprint>,
) -> bool {
    &&& e.action@ == action
    &&& e.full_path@ == fp.path@
    &&& e.length@ == length_text(fp.duration)
    &&& e.length_seconds is Some <==> fp.duration.num() > 0
    &&& e.length_seconds matches Some(t) ==> is_length_hundredths(fp.duration, t as nat)
    &&& e.resolution@ == decimal(fp.width as nat) + "x"@ + decimal(fp.height as nat)
    &&& e.width == fp.width
    &&& e.height == fp.height
    &&& e.framerate_fps is Some <==> fp.frame_rate.num() > 0
    &&& e.framerate_fps matches Some(t) ==> is_thousandths(fp.frame_rate, t as nat)
    &&& e.codec@ == codec_text(fp.codec@)
    &&& e.size@ == size_text(fp.file_size as nat)
    &&& e.size_bytes == fp.file_size
    &&& e.bitrate@ == bitrate_text(bitrate_of(fp))
    &&& e.bitrate_bps == bitrate_of(fp)
    &&& e.quality@ == quality_text(quality_of(fp))
    &&& e.quality_bits_per_frame is Some <==> quality_of(fp) > 0
    &&& e.quality_bits_per_frame matches Some(q) ==> q == quality_of(fp)
    &&& e.samples == fp.valid_hashes@.len()
    &&& e.matches@.len() == links.len()
    &&& forall|i: int|
        0 <= i < links.len() ==> is_link_entry(#[trigger] e.matches@[i], fp, links[i], fps)
    &&& tells_first_link(e)
}

/// Whether this is what is said of one member of a group.
pub open spec fn is_member_entry(
    e: FileEntry,
    group: Seq<usize>,
    index: &MatchIndex,
    fps: &[VideoFingerprint],
    x: usize,
    action: Seq<char>,
) -> bool {
    exists|links: Seq<GroupLink>|
        #[trigger] are_links(index, x, group, fps, links) && is_file_entry(
            e,
            action,
            &fps@[x as int],
            links,
            fps@,
        )
}

/// Whether this is what is said of one group.
pub open spec fn is_group_entry(
    e: GroupEntry,
    i: int,
    group: Seq<usize>,
    index: &MatchIndex,
    fps: &[VideoFingerprint],
    results: &Results,
) -> bool {
    &&& e.group@ == group_text(i)
    &&& e.files@.len() == group.len()
    &&& forall|j: int|
        0 <= j < group.len() ==> is_member_entry(
            e.files@[j],
            group,
            index,
            fps,
            #[trigger] group[j],
            action_text(
                results.fates.review@[group[j] as int],
                results.fates.doomed@[group[j] as int],
                results.disposal,
                results.tally.outcome@[group[j] as int],
            ),
        )
}

/// Where files are moved, where the run moves them.
pub open spec fn move_target(disposal: Option<Disposal>) -> Option<Seq<char>> {
    match disposal {
        Some(Disposal::MoveTo(dir)) => Some(dir@),
        _ => None,
    }
}

/// Whether these are the figures of a run.
pub open spec fn is_summary_entry(
    e: SummaryEntry,
    groups: nat,
    elapsed: u64,
    results: &Results,
) -> bool {
    &&& e.total_groups == groups
    &&& e.total_files_matched == results.matched_files
    &&& e.time_elapsed_seconds == elapsed
    &&& e.files_marked_delete == results.fates.delete@.len()
    &&& e.reclaimable_bytes == results.reclaimable_bytes
    &&& e.deletion_enabled <==> results.disposal is Some
    &&& e.mode@ == (match results.disposal {
        Some(d) => mode_text(&d),
        None => "report"@,
    })
    &&& e.move_to is Some <==> move_target(results.disposal) is Some
    &&& e.move_to matches Some(dir) ==> dir@ == move_target(results.disposal)->0
    &&& e.files_removed == results.tally.removed_count
    &&& e.bytes_removed == results.tally.removed_bytes
    &&& e.files_unlinked == results.tally.aliased_count
    &&& e.bytes_unlinked == results.tally.aliased_bytes
    &&& e.files_failed == results.tally.failed_count
    &&& e.files_changed == results.tally.changed_count
}

/// Whether the lists of a run's results have an entry for each of so many files.
pub open spec fn covers(results: &Results, n: nat) -> bool {
    &&& results.fates.review@.len() == n
    &&& results.fates.doomed@.len() == n
    &&& results.tally.outcome@.len() == n
}

fn footage_hundredths(f: Footage) -> (t: u64)
    ensures
        is_hundredths(f, t as nat),
{
    let (part, whole) = f.share.parts();
    let (num, den) = f.runtime.parts();
    assert(0 < whole * den <= 0xffff_ffff * 0xffff_ffff) by (nonlinear_arith)
        requires
            0 < whole <= 0xffff_ffff,
            0 < den <= 0xffff_ffff,
    ;
    assert((part * 100) * num == 100 * (part * num)) by (nonlinear_arith);
    nearest_up(part as u64 * 100, num, whole as u128 * den as u128)
}

fn length_hundredths(length: Seconds) -> (t: u64)
    ensures
        is_length_hundredths(length, t as nat),
{
    let (num, den) = length.parts();
    nearest_up(100, num, den as u128)
}

fn hundredths_at(ms: u32) -> (t: u64)
    ensures
        t == moment_hundredths(ms),
{
    assert((ms as nat * 100) / 1000 < FIGURE_LIMIT);
    nearest_up(ms as u64, 100, 1000)
}

fn link_entry(fp: &VideoFingerprint, link: &GroupLink, fps: &[VideoFingerprint]) -> (e: LinkEntry)
    requires
        link.other < fps@.len(),
    ensures
        is_link_entry(e, fp, *link, fps@),
{
    let matched_seconds: Option<u64> = if fp.duration.is_positive() {
        Some(footage_hundredths(link.matched_seconds))
    } else {
        None
    };
    let full_path = fps[link.other].path.as_str().to_owned();
    match link.span {
        Some(s) => LinkEntry {
            full_path,
            matched_seconds,
            matched_from: Some(clock((s.start_ms / 1000) as u64)),
            matched_to: Some(clock((s.end_ms / 1000) as u64)),
            matched_from_seconds: Some(hundredths_at(s.start_ms)),
            matched_to_seconds: Some(hundredths_at(s.end_ms)),
        },
        None => LinkEntry {
            full_path,
            matched_seconds,
            matched_from: None,
            matched_to: None,
            matched_from_seconds: None,
            matched_to_seconds: None,
        },
    }
}

fn copied(text: &Option<String>) -> (out: Option<String>)
    ensures
        is_same_text(out, *text),
{
    match text {
        Some(s) => Some(s.as_str().to_owned()),
        None => None,
    }
}

/// The strongest of a file's links, said once more. Nothing where it has none.
fn first_link(matches: &Vec<LinkEntry>) -> (first: Option<LinkEntry>)
    ensures
        first is None <==> matches@.len() == 0,
        first matches Some(l) ==> {
            &&& l.full_path@ == matches@[0].full_path@
            &&& l.matched_seconds == matches@[0].matched_seconds
            &&& is_same_text(l.matched_from, matches@[0].matched_from)
            &&& is_same_text(l.matched_to, matches@[0].matched_to)
            &&& l.matched_from_seconds == matches@[0].matched_from_seconds
            &&& l.matched_to_seconds == matches@[0].matched_to_seconds
        },
{
    if matches.len() == 0 {
        return None;
    }
    let l = &matches[0];
    Some(
        LinkEntry {
            full_path: l.full_path.as_str().to_owned(),
            matched_seconds: l.matched_seconds,
            matched_from: copied(&l.matched_from),
            matched_to: copied(&l.matched_to),
            matched_from_seconds: l.matched_from_seconds,
            matched_to_seconds: l.matched_to_seconds,
        },
    )
}

/// What is said of one file: the figures of its row, and every link it has.
pub fn file_entry(
    action: &str,
    fp: &VideoFingerprint,
    links: &Vec<GroupLink>,
    fps: &[VideoFingerprint],
) -> (e: FileEntry)
    requires
        forall|i: int| 0 <= i < links@.len() ==> (#[trigger] links@[i]).other < fps@.len(),
    ensures
        is_file_entry(e, action@, fp, links@, fps@),
{
    let mut matches: Vec<LinkEntry> = Vec::new();
    for i in 0..links.len()
        invariant
            forall|i: int| 0 <= i < links@.len() ==> (#[trigger] links@[i]).other < fps@.len(),
            matches@.len() == i,
            forall|j: int|
                0 <= j < i ==> is_link_entry(#[trigger] matches@[j], fp, links@[j], fps@),
    {
        matches.push(link_entry(fp, &links[i], fps));
    }
    let mut resolution = number(fp.width as u64);
    resolution.append("x");
    resolution.append(number(fp.height as u64).as_str());
    let known = fp.duration.is_positive();
    let (rate, _) = fp.frame_rate.parts();
    let quality = fp.quality();
    let (matched_with, matched_seconds, matched_from, matched_to, from_seconds, to_seconds) =
        match first_link(&matches) {
        Some(l) => (
            Some(l.full_path),
            l.matched_seconds,
            l.matched_from,
            l.matched_to,
            l.matched_from_seconds,
            l.matched_to_seconds,
        ),
        None => (None, None, None, None, None, None),
    };
    FileEntry {
        action: action.to_owned(),
        full_path: fp.path.as_str().to_owned(),
        length: if known {
            format_duration(fp.duration)
        } else {
            "-".to_owned()
        },
        length_seconds: if known {
            Some(length_hundredths(fp.duration))
        } else {
            None
        },
        resolution,
        width: fp.width,
        height: fp.height,
        framerate_fps: if rate > 0 {
            Some(rate_thousandths(fp.frame_rate))
        } else {
            None
        },
        codec: format_codec(fp.codec.as_str()),
        size: format_size(fp.file_size),
        size_bytes: fp.file_size,
        bitrate: format_bitrate(fp.bitrate()),
        bitrate_bps: fp.bitrate(),
        quality: format_quality(quality),
        quality_bits_per_frame: if quality > 0 {
            Some(quality)
        } else {
            None
        },
        matched_with,
        samples: fp.valid_hashes.len(),
        matched_seconds,
        matched_from,
        matched_to,
        matched_from_seconds: from_seconds,
        matched_to_seconds: to_seconds,
        matches,
    }
}

fn group_entry(
    i: usize,
    group: &Vec<usize>,
    index: &MatchIndex,
    fps: &[VideoFingerprint],
    results: &Results,
) -> (e: GroupEntry)
    requires
        i < u64::MAX,
        in_range(group@, fps@.len()),
        covers(results, fps@.len()),
    ensures
        is_group_entry(e, i as int, group@, index, fps, results),
{
    let mut files: Vec<FileEntry> = Vec::new();
    for j in 0..group.len()
        invariant
            in_range(group@, fps@.len()),
            covers(results, fps@.len()),
            files@.len() == j,
            forall|k: int|
                0 <= k < j ==> is_member_entry(
                    files@[k],
                    group@,
                    index,
                    fps,
                    #[trigger] group@[k],
                    action_text(
                        results.fates.review@[group@[k] as int],
                        results.fates.doomed@[group@[k] as int],
                        results.disposal,
                        results.tally.outcome@[group@[k] as int],
                    ),
                ),
    {
        let x = group[j];
        let links = index.links_of(x, group.as_slice(), fps);
        let label = action(
            results.fates.review[x],
            results.fates.doomed[x],
            &results.disposal,
            results.tally.outcome[x],
        );
        let e = file_entry(label, &fps[x], &links, fps);
        assert(are_links(index, x, group@, fps, links@));
        files.push(e);
    }
    GroupEntry { group: group_name(i), files }
}

fn summary_entry(groups: usize, elapsed: u64, results: &Results) -> (e: SummaryEntry)
    ensures
        is_summary_entry(e, groups as nat, elapsed, results),
{
    let (deletion_enabled, mode, move_to): (bool, String, Option<String>) = match &results.disposal {
        None => (false, "report".to_owned(), None),
        Some(d) => {
            let dir: Option<String> = match d {
                Disposal::MoveTo(dir) => Some(dir.as_str().to_owned()),
                Disposal::Trash => None,
                Disposal::Permanent => None,
            };
            (true, d.mode().to_owned(), dir)
        },
    };
    let t = &results.tally;
    SummaryEntry {
        total_groups: groups,
        total_files_matched: results.matched_files,
        time_elapsed_seconds: elapsed,
        files_marked_delete: results.fates.delete.len(),
        reclaimable_bytes: results.reclaimable_bytes,
        deletion_enabled,
        mode,
        move_to,
        files_removed: t.removed_count,
        bytes_removed: t.removed_bytes,
        files_unlinked: t.aliased_count,
        bytes_unlinked: t.aliased_bytes,
        files_failed: t.failed_count,
        files_changed: t.changed_count,
    }
}

/// Everything a run found, decided and did, as data.
pub fn document(
    groups: &Vec<Vec<usize>>,
    fps: &[VideoFingerprint],
    index: &MatchIndex,
    elapsed: u64,
    results: &Results,
) -> (doc: Document)
    requires
        groups@.len() < u64::MAX,
        forall|i: int| 0 <= i < groups@.len() ==> in_range((#[trigger] groups@[i])@, fps@.len()),
        covers(results, fps@.len()),
    ensures
        is_summary_entry(doc.summary, groups@.len(), elapsed, results),
        doc.results@.len() == groups@.len(),
        forall|i: int|
            0 <= i < groups@.len() ==> is_group_entry(
                #[trigger] doc.results@[i],
                i,
                groups@[i]@,
                index,
                fps,
                results,
            ),
{
    let mut entries: Vec<GroupEntry> = Vec::new();
    for i in 0..groups.len()
        invariant
            groups@.len() < u64::MAX,
            forall|i: int|
                0 <= i < groups@.len() ==> in_range((#[trigger] groups@[i])@, fps@.len()),
            covers(results, fps@.len()),
            entries@.len() == i,
            forall|k: int|
                0 <= k < i ==> is_group_entry(
                    #[trigger] entries@[k],
                    k,
                    groups@[k]@,
                    index,
                    fps,
                    results,
                ),
    {
        let e = group_entry(i, &groups[i], index, fps, results);
        entries.push(e);
    }
    Document { summary: summary_entry(groups.len(), elapsed, results), results: entries }
}

/// A run that was declined reports what one that was never asked to act does, where the
/// ranking and the tiering each give one answer to a question: the same fates, rows,
/// entries and figures. Only the summary in words says, at its end, that it was declined.
pub proof fn lemma_a_declined_run_reports_what_a_dry_one_does<
    B: Fn(&Vec<usize>, Priority) -> usize,
    L: Fn(&Vec<usize>, usize, Priority) -> bool,
>(
    fps: &[VideoFingerprint],
    final_groups: Seq<Vec<usize>>,
    priority: Priority,
    best: &B,
    leads: &L,
    declined: &Results,
    dry: &Results,
    elapsed: u64,
)
    requires
        is_single_ranking(best),
        is_single_tiering(leads),
        declined.disposal is None,
        dry.disposal is None,
        is_resolved(fps@, final_groups, priority, best, leads, declined.fates),
        is_resolved(fps@, final_groups, priority, best, leads, dry.fates),
        declined.reclaimable_bytes == reclaimable_bytes(fps@, declined.fates.delete@),
        dry.reclaimable_bytes == reclaimable_bytes(fps@, dry.fates.delete@),
        exists|list: Seq<usize>| #[trigger]
            are_grouped(final_groups, list) && list.len() == declined.matched_files,
        exists|list: Seq<usize>| #[trigger]
            are_grouped(final_groups, list) && list.len() == dry.matched_files,
        adds_up(fps@, declined.fates.delete@, Seq::empty(), declined.tally),
        adds_up(fps@, dry.fates.delete@, Seq::empty(), dry.tally),
    ensures
        declined.fates.review@ == dry.fates.review@,
        declined.fates.doomed@ == dry.fates.doomed@,
        declined.fates.delete@ == dry.fates.delete@,
        declined.matched_files == dry.matched_files,
        declined.reclaimable_bytes == dry.reclaimable_bytes,
        declined.tally.outcome@ == dry.tally.outcome@,
        forall|rows: GroupRows, i: int, group: Seq<usize>, index: &MatchIndex| #[trigger]
            are_group_rows(
                rows,
                i,
                group,
                index,
                fps,
                declined.fates.review@,
                declined.fates.doomed@,
                declined.disposal,
                declined.tally.outcome@,
            ) <==> are_group_rows(
                rows,
                i,
                group,
                index,
                fps,
                dry.fates.review@,
                dry.fates.doomed@,
                dry.disposal,
                dry.tally.outcome@,
            ),
        forall|e: GroupEntry, i: int, group: Seq<usize>, index: &MatchIndex| #[trigger]
            is_group_entry(e, i, group, index, fps, declined) <==> is_group_entry(
                e,
                i,
                group,
                index,
                fps,
                dry,
            ),
        forall|e: SummaryEntry| #[trigger]
            is_summary_entry(e, final_groups.len(), elapsed, declined) <==> is_summary_entry(
                e,
                final_groups.len(),
                elapsed,
                dry,
            ),
        summary_text(
            final_groups.len(),
            declined.matched_files as nat,
            elapsed as nat,
            None,
            true,
            declined.fates.delete@.len(),
            declined.reclaimable_bytes as nat,
            declined.tally,
        ) == summary_text(
            final_groups.len(),
            dry.matched_files as nat,
            elapsed as nat,
            None,
            false,
            dry.fates.delete@.len(),
            dry.reclaimable_bytes as nat,
            dry.tally,
        ) + "\nCancelled at the confirmation prompt."@,
{
    lemma_one_ranking_leads_to_one_end(
        fps@,
        final_groups,
        priority,
        best,
        leads,
        declined.fates,
        dry.fates,
    );
    let a = choose|list: Seq<usize>| #[trigger]
        are_grouped(final_groups, list) && list.len() == declined.matched_files;
    let b = choose|list: Seq<usize>| #[trigger]
        are_grouped(final_groups, list) && list.len() == dry.matched_files;
    assert forall|x: usize| #[trigger] a.contains(x) <==> b.contains(x) by {
        assert(a.contains(x) <==> is_grouped(final_groups, x));
        assert(b.contains(x) <==> is_grouped(final_groups, x));
    }
    lemma_one_ascending(a, b);
    assert forall|x: int| 0 <= x < fps@.len() implies declined.tally.outcome@[x]
        == #[trigger] dry.tally.outcome@[x] by {
        assert(declined.tally.outcome@[x] is None);
        assert(dry.tally.outcome@[x] is None);
    }
    assert(declined.tally.outcome@ =~= dry.tally.outcome@);
    assert(summary_text(
        final_groups.len(),
        declined.matched_files as nat,
        elapsed as nat,
        None,
        true,
        declined.fates.delete@.len(),
        declined.reclaimable_bytes as nat,
        declined.tally,
    ) =~= summary_text(
        final_groups.len(),
        dry.matched_files as nat,
        elapsed as nat,
        None,
        false,
        dry.fates.delete@.len(),
        dry.reclaimable_bytes as nat,
        dry.tally,
    ) + "\nCancelled at the confirmation prompt."@);
}

} // verus!
