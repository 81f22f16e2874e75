//! What acting on the targets promises of the counts that are reported.

use crate::display::{clock, format_size};
use crate::disposal::{
    aliased_line, changed_since, disposed_line, trouble_lines, Alias, Disposal, Fate, OnDisk,
};
use crate::fingerprint::VideoFingerprint;
use crate::report::{
    adds_up, console_for, is_acted, is_fate, is_grouped, is_noted, is_pass, matched_files,
    reclaimable, stale_lines, summary, Console, Format, ReportTarget, Results, Tally,
};
use crate::stats::RunStats;
use crate::text::{number, texts};
use vstd::prelude::*;

verus! {

/// Everything is said on the console unless the report itself goes there. Then the
/// listing is not, and the summary only beside a report that holds none: a table.
pub proof fn lemma_what_is_said_beside_a_report(target: Option<&ReportTarget>, console: Console)
    requires
        call_ensures(console_for, (target,), console),
    ensures
        target is None ==> console.listing && console.summary,
        target matches Some(t) ==> {
            &&& t.sink is File ==> console.listing && console.summary
            &&& t.sink is Stdout ==> !console.listing && (console.summary <==> t.format
                == Format::Csv)
        },
{
}

/// Before any target is dealt with, nothing is counted.
pub proof fn lemma_nothing_done_counts_for_nothing(
    fps: Seq<VideoFingerprint>,
    delete: Seq<usize>,
    t: Tally,
    x: int,
)
    requires
        adds_up(fps, delete, Seq::empty(), t),
        0 <= x < fps.len(),
    ensures
        t.removed_count == 0 && t.failed_count == 0 && t.changed_count == 0 && t.aliased_count == 0,
        t.removed_bytes == 0 && t.aliased_bytes == 0,
        t.gone@.len() == 0,
        t.outcome@[x] is None,
{
    assert(texts(t.gone@).len() == t.gone@.len());
}

/// One target more is counted once, by what became of it: gone with its data, whose bytes
/// then count as freed; gone but for its data, whose bytes count apart; not removed; or
/// left alone as it had changed. Only one that is gone has its path listed.
pub proof fn lemma_one_target_more(
    fps: Seq<VideoFingerprint>,
    delete: Seq<usize>,
    fates: Seq<Fate>,
    fate: Fate,
    t: Tally,
    u: Tally,
)
    requires
        fates.len() < delete.len(),
        delete[fates.len() as int] < fps.len(),
        adds_up(fps, delete, fates, t),
        adds_up(fps, delete, fates.push(fate), u),
    ensures
        ({
            let x = delete[fates.len() as int] as int;
            let size = fps[x].file_size as int;
            &&& u.outcome@[x] == Some(fate)
            &&& u.removed_count - t.removed_count == if fate is Done {
                1int
            } else {
                0
            }
            &&& u.failed_count - t.failed_count == if fate is Failed {
                1int
            } else {
                0
            }
            &&& u.changed_count - t.changed_count == if fate is Changed {
                1int
            } else {
                0
            }
            &&& u.aliased_count - t.aliased_count == if fate matches Fate::Done { aliased }
                && aliased {
                1int
            } else {
                0
            }
            &&& u.aliased_bytes - t.aliased_bytes == if fate matches Fate::Done { aliased }
                && aliased {
                size
            } else {
                0
            }
            &&& u.removed_bytes - t.removed_bytes == if fate matches Fate::Done { aliased }
                && !aliased {
                size
            } else {
                0
            }
            &&& fate is Done ==> texts(u.gone@) == texts(t.gone@).push(fps[x].path@)
            &&& !(fate is Done) ==> texts(u.gone@) == texts(t.gone@)
        }),
{
    let more = fates.push(fate);
    assert(more.drop_last() =~= fates);
    assert(more.last() == fate);
    assert(u.outcome@[delete[fates.len() as int] as int] == Some(more[fates.len() as int]));
}

/// A run that does not act counts nothing and notes nothing.
pub proof fn lemma_a_run_that_does_not_act_changes_nothing<
    K: Fn(usize) -> OnDisk,
    R: Fn(usize) -> bool,
    S: Fn() -> bool,
>(
    fps: Seq<VideoFingerprint>,
    delete: Seq<usize>,
    look: &K,
    remove: &R,
    stop: &S,
    t: Tally,
    before: RunStats,
    after: RunStats,
    x: int,
)
    requires
        is_acted(fps, delete, None, look, remove, stop, t, before, after),
        0 <= x < fps.len(),
    ensures
        after == before,
        t.removed_count == 0 && t.failed_count == 0 && t.changed_count == 0 && t.aliased_count == 0,
        t.removed_bytes == 0 && t.aliased_bytes == 0,
        t.gone@.len() == 0,
        t.outcome@[x] is None,
{
    lemma_nothing_done_counts_for_nothing(fps, delete, t, x);
}

/// What a target comes to: left alone where its length can be read and is another one;
/// else gone where it could be removed, and not where it could not. Its data stays where
/// it was only another name: always for a link that leads elsewhere, and for one of
/// several names where it is deleted for good.
pub proof fn lemma_what_a_target_comes_to<
    K: Fn(usize) -> OnDisk,
    R: Fn(usize) -> bool,
    S: Fn() -> bool,
>(
    fps: Seq<VideoFingerprint>,
    delete: Seq<usize>,
    disposal: &Disposal,
    look: &K,
    remove: &R,
    stop: &S,
    disks: Seq<OnDisk>,
    fates: Seq<Fate>,
    i: int,
)
    requires
        is_pass(fps, delete, disposal, look, remove, stop, disks, fates),
        0 <= i < fates.len(),
    ensures
        look.ensures((delete[i],), disks[i]),
        fates[i] is Changed <==> disks[i].size is Some && disks[i].size->0
            != fps[delete[i] as int].file_size,
        fates[i] is Failed ==> remove.ensures((delete[i],), false),
        fates[i] is Done ==> remove.ensures((delete[i],), true),
        fates[i] matches Fate::Done { aliased } ==> {
            &&& disks[i].alias == Alias::Sole ==> !aliased
            &&& disks[i].alias == Alias::Symlink ==> aliased
            &&& disks[i].alias == Alias::HardLink ==> (aliased <==> *disposal is Permanent)
        },
{
    assert(look.ensures((delete[i],), disks[i]));
    assert(is_fate(fps, disposal, remove, delete[i], disks[i], fates[i]));
}

/// A pass that nobody stops reaches every target, and one that is stopped at once none.
pub proof fn lemma_how_far_a_pass_goes<
    K: Fn(usize) -> OnDisk,
    R: Fn(usize) -> bool,
    S: Fn() -> bool,
>(
    fps: Seq<VideoFingerprint>,
    delete: Seq<usize>,
    disposal: &Disposal,
    look: &K,
    remove: &R,
    stop: &S,
    disks: Seq<OnDisk>,
    fates: Seq<Fate>,
)
    requires
        is_pass(fps, delete, disposal, look, remove, stop, disks, fates),
    ensures
        !stop.ensures((), true) ==> fates.len() == delete.len(),
        !stop.ensures((), false) ==> fates.len() == 0,
{
}

/// One target more is noted once: by its path where it could not be removed, and by how it
/// had changed where it was left alone. Nothing is noted of one that is gone.
pub proof fn lemma_one_note_more(
    fps: Seq<VideoFingerprint>,
    delete: Seq<usize>,
    disks: Seq<OnDisk>,
    fates: Seq<Fate>,
    fate: Fate,
    first: RunStats,
    before: RunStats,
    after: RunStats,
    path: &str,
    detail: Option<String>,
)
    requires
        fates.len() < delete.len(),
        disks.len() == fates.len() + 1,
        is_noted(fps, delete, disks.drop_last(), fates, first, before),
        is_noted(fps, delete, disks, fates.push(fate), first, after),
        path@ == fps[delete[fates.len() as int] as int].path@,
        call_ensures(
            changed_since,
            (path, fps[delete[fates.len() as int] as int].file_size, disks.last().size),
            detail,
        ),
        fate is Changed ==> detail is Some,
    ensures
        fate is Failed ==> texts(after.delete_failed.lines@) == texts(
            before.delete_failed.lines@,
        ).push(path@),
        !(fate is Failed) ==> texts(after.delete_failed.lines@) == texts(
            before.delete_failed.lines@,
        ),
        fate is Changed ==> texts(after.delete_stale.lines@) == texts(
            before.delete_stale.lines@,
        ).push(detail->0@),
        !(fate is Changed) ==> texts(after.delete_stale.lines@) == texts(
            before.delete_stale.lines@,
        ),
{
    let more = fates.push(fate);
    assert(more.drop_last() =~= fates);
    assert(more.last() == fate);
    lemma_earlier_lines(fps, delete, disks, fates);
    if fate is Failed {
        assert(texts(after.delete_failed.lines@) =~= texts(before.delete_failed.lines@).push(path@));
    }
    if fate is Changed {
        assert(texts(after.delete_stale.lines@) =~= texts(before.delete_stale.lines@).push(
            detail->0@,
        ));
    }
}

proof fn lemma_earlier_lines(
    fps: Seq<VideoFingerprint>,
    delete: Seq<usize>,
    disks: Seq<OnDisk>,
    fates: Seq<Fate>,
)
    requires
        fates.len() < disks.len(),
    ensures
        stale_lines(fps, delete, disks.drop_last(), fates) == stale_lines(
            fps,
            delete,
            disks,
            fates,
        ),
    decreases fates.len(),
{
    if fates.len() > 0 {
        lemma_earlier_lines(fps, delete, disks, fates.drop_last());
    }
}

/// What can be reclaimed is the bytes of every target: one more adds its own.
pub proof fn lemma_a_target_adds_its_own_bytes(
    fps: &[VideoFingerprint],
    delete: &Vec<usize>,
    more: &Vec<usize>,
    x: usize,
    bytes: u64,
    all: u64,
)
    requires
        call_ensures(reclaimable, (fps, delete), bytes),
        call_ensures(reclaimable, (fps, more), all),
        more@ == delete@.push(x),
    ensures
        all == bytes + fps@[x as int].file_size,
        delete@.len() == 0 ==> bytes == 0,
{
    assert(more@.drop_last() =~= delete@);
}

/// The files that matched are those that stand in some group, in order and once each,
/// however many groups they stand in.
pub proof fn lemma_matched_files_stand_in_groups(
    groups: &Vec<Vec<usize>>,
    n: usize,
    list: Vec<usize>,
    x: usize,
)
    requires
        call_ensures(matched_files, (groups, n), list),
    ensures
        list@.contains(x) <==> exists|i: int|
            0 <= i < groups@.len() && (#[trigger] groups@[i])@.contains(x),
        forall|i: int, j: int| 0 <= i < j < list@.len() ==> #[trigger] list@[i] < #[trigger] list@[j],
{
    assert(list@.contains(x) <==> is_grouped(groups@, x));
}

/// A summary counts groups, files and time, and then says what was done: to how many
/// files, what that leaves out, and what went wrong. Where nothing was done it says what
/// could be reclaimed, if anything, and whether it was called off.
pub proof fn lemma_what_a_summary_says(
    groups: usize,
    files: usize,
    elapsed: u64,
    disposal: &Option<Disposal>,
    declined: bool,
    targets: usize,
    bytes: u64,
    t: &Tally,
    text: String,
    g: String,
    f: String,
    time: String,
    n: String,
    size: String,
    done: String,
    aliased: String,
    trouble: String,
)
    requires
        call_ensures(
            summary,
            (groups, files, elapsed, disposal, declined, targets, bytes, t),
            text,
        ),
        call_ensures(number, (groups as u64,), g),
        call_ensures(number, (files as u64,), f),
        call_ensures(clock, (elapsed,), time),
        call_ensures(number, (targets as u64,), n),
        call_ensures(format_size, (bytes,), size),
        *disposal is Some ==> call_ensures(
            disposed_line,
            (&disposal->0, t.removed_count, t.removed_bytes),
            done,
        ),
        call_ensures(aliased_line, (t.aliased_count, t.aliased_bytes), aliased),
        call_ensures(trouble_lines, (t.failed_count, t.changed_count), trouble),
    ensures
        ({
            let head = "Total groups found: "@ + g@ + "\nTotal files matched: "@ + f@
                + "\nTotal time elapsed: "@ + time@;
            let rest = "\nReclaimable: "@ + size@ + " across "@ + n@
                + " file(s) marked DELETE (nothing was removed)."@;
            let off = "\nCancelled at the confirmation prompt."@;
            &&& *disposal is Some ==> text@ == head + "\n"@ + done@ + aliased@ + trouble@
            &&& *disposal is None && targets > 0 && declined ==> text@ == head + rest + off
            &&& *disposal is None && targets > 0 && !declined ==> text@ == head + rest
            &&& *disposal is None && targets == 0 && declined ==> text@ == head + off
            &&& *disposal is None && targets == 0 && !declined ==> text@ == head
        }),
{
    assert(groups as nat == (groups as u64) as nat);
    assert(files as nat == (files as u64) as nat);
    assert(targets as nat == (targets as u64) as nat);
    let head = "Total groups found: "@ + g@ + "\nTotal files matched: "@ + f@
        + "\nTotal time elapsed: "@ + time@;
    let rest = "\nReclaimable: "@ + size@ + " across "@ + n@
        + " file(s) marked DELETE (nothing was removed)."@;
    let off = "\nCancelled at the confirmation prompt."@;
    let none = Seq::<char>::empty();
    if let Some(d) = *disposal {
        assert(text@ =~= head + "\n"@ + done@ + aliased@ + trouble@);
    } else if targets > 0 {
        if declined {
            assert(text@ =~= head + rest + off);
        } else {
            assert(text@ =~= head + rest);
        }
    } else if declined {
        assert(text@ =~= head + off);
    } else {
        assert(text@ =~= head);
    }
}

/// A run says how to act on what it found where there is something to remove, it was not
/// asked to act, and nobody called it off.
pub proof fn lemma_when_a_run_says_how_to_act(results: &Results, yes: bool)
    requires
        call_ensures(Results::wants_nudge, (results,), yes),
    ensures
        results.disposal is Some ==> !yes,
        results.declined ==> !yes,
        results.fates.delete@.len() == 0 ==> !yes,
        results.disposal is None && !results.declined && results.fates.delete@.len() > 0 ==> yes,
{
}

} // verus!
