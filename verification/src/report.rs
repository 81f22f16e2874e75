//! What a run does with the duplicates it found, and what it says of it.

use crate::compare::MatchIndex;
use crate::display::{clock, clock_text, format_size, size_text};
use crate::disposal::{
    aliased_line, aliased_text, change_text, dispose_one, disposed_line, disposed_text, is_changed,
    is_one_more, leaves_data, trouble_lines, trouble_text, Disposal, Fate, OnDisk,
};
use crate::fates::{
    are_fates, are_grounds, in_range, is_doomed, is_ranking, is_resolved, is_tiering, resolve,
    Fates, Grounds, Priority,
};
use crate::fingerprint::VideoFingerprint;
use crate::rows::{are_group_rows, group_rows, rows_are_full, GroupRows};
use crate::seqs::lemma_push_contains;
use crate::stats::RunStats;
use crate::text::{decimal, number, texts};
use vstd::prelude::*;

verus! {

/// Which layout a report is written in.
#[derive(Clone, Copy, Debug, PartialEq, Eq, Structural)]
pub enum Format {
    Txt,
    Csv,
    Json,
}

/// Where a report goes.
#[derive(Clone, Debug)]
pub enum Sink {
    Stdout,
    File(String),
}

/// Where the report goes and how it is written.
#[derive(Clone, Debug)]
pub struct ReportTarget {
    pub sink: Sink,
    pub format: Format,
}

/// Which parts of the run are still said out loud once the report has a destination.
#[derive(Clone, Copy, Debug, PartialEq, Eq, Structural)]
pub struct Console {
    /// The per-group table of files.
    pub listing: bool,
    /// The counts, the reclaimable total and what the disposal actually did.
    pub summary: bool,
}

/// Whether a target is standard output.
pub open spec fn is_stdout(target: Option<&ReportTarget>) -> bool {
    target matches Some(t) && t.sink is Stdout
}

/// What is said beside the report: everything, unless the report itself goes to
/// standard output. Then only the summary is, and only where the report carries none.
pub fn console_for(target: Option<&ReportTarget>) -> (console: Console)
    ensures
        console.listing <==> !is_stdout(target),
        console.summary <==> !is_stdout(target) || target->0.format == Format::Csv,
{
    match target {
        Some(t) => match t.sink {
            Sink::Stdout => Console {
                listing: false,
                summary: match t.format {
                    Format::Csv => true,
                    Format::Txt => false,
                    Format::Json => false,
                },
            },
            Sink::File(_) => Console { listing: true, summary: true },
        },
        None => Console { listing: true, summary: true },
    }
}

/// What a disposal pass did.
pub struct Tally {
    pub removed_count: usize,
    pub failed_count: usize,
    pub changed_count: usize,
    pub aliased_count: usize,
    pub aliased_bytes: u64,
    pub removed_bytes: u64,
    /// The paths that are no longer where they were.
    pub gone: Vec<String>,
    /// What became of each file, where the pass reached it.
    pub outcome: Vec<Option<Fate>>,
}

/// Whether a file left its path.
pub open spec fn is_gone(f: Fate) -> bool {
    f is Done
}

/// Whether a file's data left with it.
pub open spec fn is_freed(f: Fate) -> bool {
    f == (Fate::Done { aliased: false })
}

/// Whether a file left its path and its data stayed.
pub open spec fn is_unlinked(f: Fate) -> bool {
    f == (Fate::Done { aliased: true })
}

/// Whether a file could not be dealt with.
pub open spec fn is_failed(f: Fate) -> bool {
    f == Fate::Failed
}

/// Whether a file was left alone because it changed.
pub open spec fn is_stale(f: Fate) -> bool {
    f == Fate::Changed
}

/// How many fates are of a kind.
pub open spec fn count_of(fates: Seq<Fate>, kind: spec_fn(Fate) -> bool) -> nat
    decreases fates.len(),
{
    if fates.len() == 0 {
        0
    } else {
        count_of(fates.drop_last(), kind) + if kind(fates.last()) {
            1nat
        } else {
            0
        }
    }
}

/// The bytes of the files whose fates are of a kind.
pub open spec fn bytes_of(
    fps: Seq<VideoFingerprint>,
    delete: Seq<usize>,
    fates: Seq<Fate>,
    kind: spec_fn(Fate) -> bool,
) -> nat
    decreases fates.len(),
{
    if fates.len() == 0 {
        0
    } else {
        bytes_of(fps, delete, fates.drop_last(), kind) + if kind(fates.last()) {
            fps[delete[fates.len() - 1] as int].file_size as nat
        } else {
            0
        }
    }
}

/// The paths of the files that left them, in order.
pub open spec fn gone_paths(
    fps: Seq<VideoFingerprint>,
    delete: Seq<usize>,
    fates: Seq<Fate>,
) -> Seq<Seq<char>>
    decreases fates.len(),
{
    if fates.len() == 0 {
        Seq::empty()
    } else {
        let less = gone_paths(fps, delete, fates.drop_last());
        if is_gone(fates.last()) {
            less.push(fps[delete[fates.len() - 1] as int].path@)
        } else {
            less
        }
    }
}

/// What the files marked for deletion weigh together.
pub open spec fn reclaimable_bytes(fps: Seq<VideoFingerprint>, delete: Seq<usize>) -> nat
    decreases delete.len(),
{
    if delete.len() == 0 {
        0
    } else {
        reclaimable_bytes(fps, delete.drop_last()) + fps[delete.last() as int].file_size as nat
    }
}

/// What the first `n` files weigh together.
pub open spec fn total_bytes(fps: Seq<VideoFingerprint>, n: int) -> nat
    decreases n,
{
    if n <= 0 {
        0
    } else {
        total_bytes(fps, n - 1) + fps[n - 1].file_size as nat
    }
}

/// Targets weigh no more than all files together.
proof fn lemma_targets_within(fps: Seq<VideoFingerprint>, delete: Seq<usize>, n: int)
    requires
        0 <= n,
        is_target_list(delete, n as nat),
    ensures
        reclaimable_bytes(fps, delete) <= total_bytes(fps, n),
    decreases n,
{
    if delete.len() > 0 {
        let less = delete.drop_last();
        let last = delete[delete.len() - 1];
        if last == n - 1 {
            assert forall|i: int| 0 <= i < less.len() implies #[trigger] less[i] < n - 1 by {
                assert(delete[i] < delete[delete.len() - 1]);
            }
            lemma_targets_within(fps, less, n - 1);
        } else {
            assert forall|i: int| 0 <= i < delete.len() implies #[trigger] delete[i] < n - 1 by {
                if i < delete.len() - 1 {
                    assert(delete[i] < delete[delete.len() - 1]);
                }
            }
            lemma_targets_within(fps, delete, n - 1);
        }
    }
}

/// Whether a tally adds these fates up.
pub open spec fn adds_up(
    fps: Seq<VideoFingerprint>,
    delete: Seq<usize>,
    fates: Seq<Fate>,
    t: Tally,
) -> bool {
    &&& t.removed_count == count_of(fates, |f: Fate| is_gone(f))
    &&& t.failed_count == count_of(fates, |f: Fate| is_failed(f))
    &&& t.changed_count == count_of(fates, |f: Fate| is_stale(f))
    &&& t.aliased_count == count_of(fates, |f: Fate| is_unlinked(f))
    &&& t.aliased_bytes == bytes_of(fps, delete, fates, |f: Fate| is_unlinked(f))
    &&& t.removed_bytes == bytes_of(fps, delete, fates, |f: Fate| is_freed(f))
    &&& texts(t.gone@) == gone_paths(fps, delete, fates)
    &&& t.outcome@.len() == fps.len()
    &&& forall|x: int|
        0 <= x < fps.len() ==> (#[trigger] t.outcome@[x] is Some <==> exists|i: int|
            0 <= i < fates.len() && #[trigger] delete[i] == x)
    &&& forall|i: int|
        0 <= i < fates.len() ==> t.outcome@[#[trigger] delete[i] as int] == Some(fates[i])
}

/// Whether a file's fate is what a look at the disk and its removal led to.
pub open spec fn is_fate<R: Fn(usize) -> bool>(
    fps: Seq<VideoFingerprint>,
    disposal: &Disposal,
    remove: &R,
    x: usize,
    disk: OnDisk,
    fate: Fate,
) -> bool {
    match fate {
        Fate::Changed => is_changed(fps[x as int].file_size, disk.size),
        Fate::Failed => !is_changed(fps[x as int].file_size, disk.size) && remove.ensures(
            (x,),
            false,
        ),
        Fate::Done { aliased } => !is_changed(fps[x as int].file_size, disk.size) && remove.ensures(
            (x,),
            true,
        ) && aliased == leaves_data(disk.alias, disposal),
    }
}

/// Whether a disposal pass went this way: the targets in order, each once, up to where
/// it was asked to stop. `disks` is what the look at each of them found.
pub open spec fn is_pass<K: Fn(usize) -> OnDisk, R: Fn(usize) -> bool, S: Fn() -> bool>(
    fps: Seq<VideoFingerprint>,
    delete: Seq<usize>,
    disposal: &Disposal,
    look: &K,
    remove: &R,
    stop: &S,
    disks: Seq<OnDisk>,
    fates: Seq<Fate>,
) -> bool {
    &&& disks.len() == fates.len()
    &&& fates.len() <= delete.len()
    &&& fates.len() < delete.len() ==> stop.ensures((), true)
    &&& fates.len() > 0 ==> stop.ensures((), false)
    &&& forall|i: int|
        0 <= i < fates.len() ==> look.ensures((delete[i],), #[trigger] disks[i]) && is_fate(
            fps,
            disposal,
            remove,
            delete[i],
            disks[i],
            fates[i],
        )
}

/// The paths of the files that could not be dealt with, in order.
pub open spec fn failed_paths(
    fps: Seq<VideoFingerprint>,
    delete: Seq<usize>,
    fates: Seq<Fate>,
) -> Seq<Seq<char>>
    decreases fates.len(),
{
    if fates.len() == 0 {
        Seq::empty()
    } else {
        let less = failed_paths(fps, delete, fates.drop_last());
        if is_failed(fates.last()) {
            less.push(fps[delete[fates.len() - 1] as int].path@)
        } else {
            less
        }
    }
}

/// The lines that say how the files that were left alone had changed, in order.
pub open spec fn stale_lines(
    fps: Seq<VideoFingerprint>,
    delete: Seq<usize>,
    disks: Seq<OnDisk>,
    fates: Seq<Fate>,
) -> Seq<Seq<char>>
    decreases fates.len(),
{
    if fates.len() == 0 {
        Seq::empty()
    } else {
        let less = stale_lines(fps, delete, disks, fates.drop_last());
        let at = fates.len() - 1;
        if is_stale(fates.last()) {
            less.push(
                change_text(
                    fps[delete[at] as int].path@,
                    fps[delete[at] as int].file_size as nat,
                    disks[at].size->0 as nat,
                ),
            )
        } else {
            less
        }
    }
}

/// What was found later makes no difference to the lines so far.
proof fn lemma_stale_prefix(
    fps: Seq<VideoFingerprint>,
    delete: Seq<usize>,
    disks: Seq<OnDisk>,
    fates: Seq<Fate>,
    disk: OnDisk,
)
    requires
        fates.len() <= disks.len(),
    ensures
        stale_lines(fps, delete, disks.push(disk), fates) == stale_lines(
            fps,
            delete,
            disks,
            fates,
        ),
    decreases fates.len(),
{
    if fates.len() > 0 {
        lemma_stale_prefix(fps, delete, disks, fates.drop_last(), disk);
    }
}

/// Whether the problems of a pass were recorded, and nothing else was.
pub open spec fn is_noted(
    fps: Seq<VideoFingerprint>,
    delete: Seq<usize>,
    disks: Seq<OnDisk>,
    fates: Seq<Fate>,
    before: RunStats,
    after: RunStats,
) -> bool {
    &&& after.clustering_abandoned == before.clustering_abandoned
    &&& after.report_write_failed == before.report_write_failed
    &&& texts(after.delete_failed.lines@) == texts(before.delete_failed.lines@) + failed_paths(
        fps,
        delete,
        fates,
    )
    &&& texts(after.delete_stale.lines@) == texts(before.delete_stale.lines@) + stale_lines(
        fps,
        delete,
        disks,
        fates,
    )
}

/// One more fate, one more note.
proof fn lemma_noted(
    fps: Seq<VideoFingerprint>,
    delete: Seq<usize>,
    disks: Seq<OnDisk>,
    fates: Seq<Fate>,
    first: RunStats,
    before: RunStats,
    after: RunStats,
    disk: OnDisk,
    fate: Fate,
)
    requires
        fates.len() < delete.len(),
        disks.len() == fates.len(),
        is_noted(fps, delete, disks, fates, first, before),
        after.clustering_abandoned == before.clustering_abandoned,
        after.report_write_failed == before.report_write_failed,
        fate is Done ==> after == before,
        fate == Fate::Changed ==> after.delete_failed == before.delete_failed && is_one_more(
            before.delete_stale.lines@,
            after.delete_stale.lines@,
            change_text(
                fps[delete[fates.len() as int] as int].path@,
                fps[delete[fates.len() as int] as int].file_size as nat,
                disk.size->0 as nat,
            ),
        ),
        fate == Fate::Failed ==> after.delete_stale == before.delete_stale && is_one_more(
            before.delete_failed.lines@,
            after.delete_failed.lines@,
            fps[delete[fates.len() as int] as int].path@,
        ),
    ensures
        is_noted(fps, delete, disks.push(disk), fates.push(fate), first, after),
{
    let more = fates.push(fate);
    let seen = disks.push(disk);
    assert(more.drop_last() =~= fates);
    lemma_stale_prefix(fps, delete, disks, fates, disk);
    let fp = fps[delete[fates.len() as int] as int];
    match fate {
        Fate::Done { aliased } => {},
        Fate::Changed => {
            let line = change_text(fp.path@, fp.file_size as nat, disk.size->0 as nat);
            let list = after.delete_stale.lines@;
            assert(list =~= before.delete_stale.lines@.push(list.last()));
            assert(texts(list) =~= texts(before.delete_stale.lines@).push(line));
            assert(texts(list) =~= texts(first.delete_stale.lines@) + stale_lines(
                fps,
                delete,
                seen,
                more,
            ));
        },
        Fate::Failed => {
            let list = after.delete_failed.lines@;
            assert(list =~= before.delete_failed.lines@.push(list.last()));
            assert(texts(list) =~= texts(before.delete_failed.lines@).push(fp.path@));
            assert(texts(list) =~= texts(first.delete_failed.lines@) + failed_paths(
                fps,
                delete,
                more,
            ));
        },
    }
}

/// A list of files in order, each once.
pub open spec fn is_target_list(delete: Seq<usize>, n: nat) -> bool {
    &&& forall|i: int| 0 <= i < delete.len() ==> #[trigger] delete[i] < n
    &&& forall|i: int, j: int|
        0 <= i < j < delete.len() ==> #[trigger] delete[i] < #[trigger] delete[j]
}

proof fn lemma_bytes_within(
    fps: Seq<VideoFingerprint>,
    delete: Seq<usize>,
    fates: Seq<Fate>,
)
    requires
        fates.len() <= delete.len(),
    ensures
        bytes_of(fps, delete, fates, |f: Fate| is_freed(f)) + bytes_of(
            fps,
            delete,
            fates,
            |f: Fate| is_unlinked(f),
        ) <= reclaimable_bytes(fps, delete.take(fates.len() as int)),
        reclaimable_bytes(fps, delete.take(fates.len() as int)) <= reclaimable_bytes(fps, delete),
    decreases fates.len(),
{
    lemma_reclaimable_grows(fps, delete, fates.len() as int);
    if fates.len() > 0 {
        lemma_bytes_within(fps, delete, fates.drop_last());
        let n = fates.len() as int;
        assert(delete.take(n).drop_last() =~= delete.take(n - 1));
    }
}

proof fn lemma_reclaimable_grows(fps: Seq<VideoFingerprint>, delete: Seq<usize>, n: int)
    requires
        0 <= n <= delete.len(),
    ensures
        reclaimable_bytes(fps, delete.take(n)) <= reclaimable_bytes(fps, delete),
    decreases delete.len() - n,
{
    if n < delete.len() {
        lemma_reclaimable_grows(fps, delete, n + 1);
        assert(delete.take(n + 1).drop_last() =~= delete.take(n));
    } else {
        assert(delete.take(n) =~= delete);
    }
}

proof fn lemma_counts_within(fates: Seq<Fate>, kind: spec_fn(Fate) -> bool)
    ensures
        count_of(fates, kind) <= fates.len(),
    decreases fates.len(),
{
    if fates.len() > 0 {
        lemma_counts_within(fates.drop_last(), kind);
    }
}

/// Nothing done yet.
pub fn untouched(n: usize) -> (t: Tally)
    ensures
        t.removed_count == 0,
        t.failed_count == 0,
        t.changed_count == 0,
        t.aliased_count == 0,
        t.aliased_bytes == 0,
        t.removed_bytes == 0,
        t.gone@.len() == 0,
        t.outcome@.len() == n,
        forall|x: int| 0 <= x < n ==> #[trigger] t.outcome@[x] is None,
{
    let mut outcome: Vec<Option<Fate>> = Vec::new();
    for i in 0..n
        invariant
            outcome@.len() == i,
            forall|x: int| 0 <= x < i ==> #[trigger] outcome@[x] is None,
    {
        outcome.push(None);
    }
    Tally {
        removed_count: 0,
        failed_count: 0,
        changed_count: 0,
        aliased_count: 0,
        aliased_bytes: 0,
        removed_bytes: 0,
        gone: Vec::new(),
        outcome,
    }
}

/// Act on every target, in order, each once, until done or asked to stop.
///
/// `look` looks at a file on disk, and `remove` takes it off its path. They are asked of
/// targets alone, and not once the answer is to stop; `remove` only where a look does
/// not show that the file has changed.
#[verifier::rlimit(30)]
pub fn dispose_all<K, R, S>(
    delete: &Vec<usize>,
    fps: &[VideoFingerprint],
    disposal: &Disposal,
    look: &K,
    remove: &R,
    stop: &S,
    stats: &mut RunStats,
) -> (tally: Tally) where
    K: Fn(usize) -> OnDisk,
    R: Fn(usize) -> bool,
    S: Fn() -> bool,

    requires
        stop.requires(()),
        is_target_list(delete@, fps@.len()),
        reclaimable_bytes(fps@, delete@) <= u64::MAX,
        forall|x: usize| #[trigger]
            delete@.contains(x) && stop.ensures((), false) ==> look.requires((x,)),
        forall|x: usize, disk: OnDisk| #[trigger]
            look.ensures((x,), disk) && delete@.contains(x) && stop.ensures((), false)
                && !is_changed(fps@[x as int].file_size, disk.size) ==> remove.requires((x,)),
    ensures
        exists|disks: Seq<OnDisk>, fates: Seq<Fate>|
            #[trigger] is_pass(fps@, delete@, disposal, look, remove, stop, disks, fates)
                && adds_up(fps@, delete@, fates, tally) && is_noted(
                fps@,
                delete@,
                disks,
                fates,
                *old(stats),
                *final(stats),
            ),
{
    let mut tally = untouched(fps.len());
    let ghost mut fates: Seq<Fate> = Seq::empty();
    let ghost mut disks: Seq<OnDisk> = Seq::empty();
    let ghost first = *stats;
    proof {
        assert(texts(tally.gone@) =~= gone_paths(fps@, delete@, fates));
        assert(texts(first.delete_stale.lines@) =~= texts(first.delete_stale.lines@) + stale_lines(
            fps@,
            delete@,
            disks,
            fates,
        ));
        assert(texts(first.delete_failed.lines@) =~= texts(first.delete_failed.lines@)
            + failed_paths(fps@, delete@, fates));
    }
    for i in 0..delete.len()
        invariant
            stop.requires(()),
            is_target_list(delete@, fps@.len()),
            reclaimable_bytes(fps@, delete@) <= u64::MAX,
            forall|x: usize| #[trigger]
                delete@.contains(x) && stop.ensures((), false) ==> look.requires((x,)),
            forall|x: usize, disk: OnDisk| #[trigger]
                look.ensures((x,), disk) && delete@.contains(x) && stop.ensures((), false)
                    && !is_changed(fps@[x as int].file_size, disk.size) ==> remove.requires((x,)),
            fates.len() == i,
            disks.len() == i,
            i > 0 ==> stop.ensures((), false),
            first == *old(stats),
            is_noted(fps@, delete@, disks, fates, first, *stats),
            adds_up(fps@, delete@, fates, tally),
            forall|j: int|
                0 <= j < fates.len() ==> look.ensures((delete@[j],), #[trigger] disks[j])
                    && is_fate(fps@, disposal, remove, delete@[j], disks[j], fates[j]),
    {
        if stop() {
            assert(is_pass(fps@, delete@, disposal, look, remove, stop, disks, fates));
            return tally;
        }
        let x = delete[i];
        assert(delete@.contains(x));
        let fp = &fps[x];
        let disk = look(x);
        assert(look.ensures((x,), disk));
        let act = || -> (ok: bool)
            requires
                remove.requires((x,)),
            ensures
                remove.ensures((x,), ok),
            { remove(x) };
        let ghost earlier = *stats;
        let fate = dispose_one(fp.path.as_str(), fp.file_size, disposal, disk, &act, stats);
        let ghost before = fates;
        let ghost seen = disks;
        let ghost old_outcome = tally.outcome@;
        let ghost old_gone = tally.gone@;
        proof {
            lemma_noted(fps@, delete@, seen, before, first, earlier, *stats, disk, fate);
            fates = fates.push(fate);
            disks = disks.push(disk);
            assert(fates.drop_last() =~= before);
            assert(is_fate(fps@, disposal, remove, x, disk, fate));
            lemma_bytes_within(fps@, delete@, fates);
            lemma_counts_within(before, |f: Fate| is_gone(f));
            lemma_counts_within(before, |f: Fate| is_failed(f));
            lemma_counts_within(before, |f: Fate| is_stale(f));
            lemma_counts_within(before, |f: Fate| is_unlinked(f));
        }
        match fate {
            Fate::Done { aliased } => {
                tally.removed_count = tally.removed_count + 1;
                if aliased {
                    tally.aliased_count = tally.aliased_count + 1;
                    tally.aliased_bytes = tally.aliased_bytes + fp.file_size;
                } else {
                    tally.removed_bytes = tally.removed_bytes + fp.file_size;
                }
                tally.gone.push(fp.path.as_str().to_owned());
                proof {
                    assert(texts(tally.gone@) =~= texts(old_gone).push(fp.path@));
                }
            },
            Fate::Changed => {
                tally.changed_count = tally.changed_count + 1;
            },
            Fate::Failed => {
                tally.failed_count = tally.failed_count + 1;
            },
        }
        tally.outcome.set(x, Some(fate));
        proof {
            assert forall|j: int| 0 <= j < fates.len() implies tally.outcome@[#[trigger] delete@[j] as int]
                == Some(fates[j]) by {
                if j < i {
                    assert(delete@[j] < delete@[i as int]);
                    assert(old_outcome[delete@[j] as int] == Some(before[j]));
                }
            }
            assert forall|y: int| 0 <= y < fps@.len() implies (#[trigger] tally.outcome@[y] is Some
                <==> exists|j: int| 0 <= j < fates.len() && #[trigger] delete@[j] == y) by {
                if y == x {
                    assert(delete@[i as int] == y);
                } else {
                    assert(old_outcome[y] is Some <==> exists|j: int|
                        0 <= j < before.len() && #[trigger] delete@[j] == y);
                    if exists|j: int| 0 <= j < before.len() && #[trigger] delete@[j] == y {
                        let j = choose|j: int| 0 <= j < before.len() && #[trigger] delete@[j] == y;
                        assert(delete@[j] == y && j < fates.len());
                    }
                    if exists|j: int| 0 <= j < fates.len() && #[trigger] delete@[j] == y {
                        let j = choose|j: int| 0 <= j < fates.len() && #[trigger] delete@[j] == y;
                        assert(j < before.len());
                        assert(delete@[j] == y);
                    }
                }
            }
            assert forall|j: int| 0 <= j < fates.len() implies look.ensures(
                (delete@[j],),
                #[trigger] disks[j],
            ) && is_fate(fps@, disposal, remove, delete@[j], disks[j], fates[j]) by {
                if j < i {
                    assert(disks[j] == seen[j]);
                    assert(fates[j] == before[j]);
                }
            }
        }
    }
    proof {
        assert(is_pass(fps@, delete@, disposal, look, remove, stop, disks, fates));
    }
    tally
}

/// Every target the pass reached is accounted for exactly once.
pub proof fn lemma_every_target_is_counted_once(fates: Seq<Fate>)
    ensures
        count_of(fates, |f: Fate| is_gone(f)) + count_of(fates, |f: Fate| is_failed(f)) + count_of(
            fates,
            |f: Fate| is_stale(f),
        ) == fates.len(),
        count_of(fates, |f: Fate| is_unlinked(f)) + count_of(fates, |f: Fate| is_freed(f))
            == count_of(fates, |f: Fate| is_gone(f)),
    decreases fates.len(),
{
    if fates.len() > 0 {
        lemma_every_target_is_counted_once(fates.drop_last());
    }
}

/// A run never removes more than it said it would: the bytes that went and the bytes
/// that stayed behind together are within the figure a dry run prints, and reach it
/// where every target left its path.
pub proof fn lemma_a_run_keeps_to_the_plan(
    fps: Seq<VideoFingerprint>,
    delete: Seq<usize>,
    fates: Seq<Fate>,
)
    requires
        fates.len() <= delete.len(),
    ensures
        bytes_of(fps, delete, fates, |f: Fate| is_freed(f)) + bytes_of(
            fps,
            delete,
            fates,
            |f: Fate| is_unlinked(f),
        ) <= reclaimable_bytes(fps, delete),
        fates.len() == delete.len() && (forall|i: int|
            0 <= i < fates.len() ==> is_gone(#[trigger] fates[i])) ==> bytes_of(
            fps,
            delete,
            fates,
            |f: Fate| is_freed(f),
        ) + bytes_of(fps, delete, fates, |f: Fate| is_unlinked(f)) == reclaimable_bytes(fps, delete),
{
    lemma_bytes_within(fps, delete, fates);
    if fates.len() == delete.len() && (forall|i: int|
        0 <= i < fates.len() ==> is_gone(#[trigger] fates[i])) {
        lemma_all_bytes(fps, delete, fates);
        assert(delete.take(fates.len() as int) =~= delete);
    }
}

proof fn lemma_all_bytes(fps: Seq<VideoFingerprint>, delete: Seq<usize>, fates: Seq<Fate>)
    requires
        fates.len() <= delete.len(),
        forall|i: int| 0 <= i < fates.len() ==> is_gone(#[trigger] fates[i]),
    ensures
        bytes_of(fps, delete, fates, |f: Fate| is_freed(f)) + bytes_of(
            fps,
            delete,
            fates,
            |f: Fate| is_unlinked(f),
        ) == reclaimable_bytes(fps, delete.take(fates.len() as int)),
    decreases fates.len(),
{
    if fates.len() > 0 {
        let less = fates.drop_last();
        assert forall|i: int| 0 <= i < less.len() implies is_gone(#[trigger] less[i]) by {
            assert(less[i] == fates[i]);
        }
        lemma_all_bytes(fps, delete, less);
        let n = fates.len() as int;
        assert(delete.take(n).drop_last() =~= delete.take(n - 1));
        assert(is_gone(fates[n - 1]));
    }
}

/// A target that was not dealt with is never passed over in silence: the run has a
/// problem to report.
pub proof fn lemma_a_problem_is_never_silent(
    fps: Seq<VideoFingerprint>,
    delete: Seq<usize>,
    disks: Seq<OnDisk>,
    fates: Seq<Fate>,
    before: RunStats,
    after: RunStats,
    i: int,
)
    requires
        is_noted(fps, delete, disks, fates, before, after),
        0 <= i < fates.len(),
        !is_gone(fates[i]),
    ensures
        after.delete_failed.lines@.len() > 0 || after.delete_stale.lines@.len() > 0,
{
    lemma_notes_add_up(fps, delete, disks, fates, i);
    assert(texts(after.delete_failed.lines@).len() == after.delete_failed.lines@.len());
    assert(texts(after.delete_stale.lines@).len() == after.delete_stale.lines@.len());
}

proof fn lemma_notes_add_up(
    fps: Seq<VideoFingerprint>,
    delete: Seq<usize>,
    disks: Seq<OnDisk>,
    fates: Seq<Fate>,
    i: int,
)
    requires
        0 <= i < fates.len(),
        !is_gone(fates[i]),
    ensures
        failed_paths(fps, delete, fates).len() > 0 || stale_lines(
            fps,
            delete,
            disks,
            fates,
        ).len() > 0,
    decreases fates.len(),
{
    if i < fates.len() - 1 {
        let less = fates.drop_last();
        assert(less[i] == fates[i]);
        lemma_notes_add_up(fps, delete, disks, less, i);
    }
}

/// A file that changed on disk is never acted on, and a file held for review or kept
/// is never reached: only targets are, and only those not known to have changed.
pub proof fn lemma_only_unchanged_targets_go<
    K: Fn(usize) -> OnDisk,
    R: Fn(usize) -> bool,
    S: Fn() -> bool,
>(
    fps: Seq<VideoFingerprint>,
    delete: Seq<usize>,
    disposal: &Disposal,
    look: &K,
    remove: &R,
    stop: &S,
    disks: Seq<OnDisk>,
    fates: Seq<Fate>,
    t: Tally,
    x: usize,
)
    requires
        is_pass(fps, delete, disposal, look, remove, stop, disks, fates),
        adds_up(fps, delete, fates, t),
        x < fps.len(),
        t.outcome@[x as int] matches Some(f) && is_gone(f),
    ensures
        delete.contains(x),
        exists|disk: OnDisk| #[trigger]
            look.ensures((x,), disk) && !is_changed(fps[x as int].file_size, disk.size),
{
    let i = choose|i: int| 0 <= i < fates.len() && #[trigger] delete[i] == x;
    assert(t.outcome@[delete[i] as int] == Some(fates[i]));
    assert(look.ensures((delete[i],), disks[i]));
    assert(is_fate(fps, disposal, remove, delete[i], disks[i], fates[i]));
    assert(delete.contains(delete[i]));
}

/// What the targets weigh together.
pub fn reclaimable(fps: &[VideoFingerprint], delete: &Vec<usize>) -> (bytes: u64)
    requires
        forall|i: int| 0 <= i < delete@.len() ==> #[trigger] delete@[i] < fps@.len(),
        reclaimable_bytes(fps@, delete@) <= u64::MAX,
    ensures
        bytes == reclaimable_bytes(fps@, delete@),
{
    let mut bytes: u64 = 0;
    for i in 0..delete.len()
        invariant
            forall|i: int| 0 <= i < delete@.len() ==> #[trigger] delete@[i] < fps@.len(),
            reclaimable_bytes(fps@, delete@) <= u64::MAX,
            bytes == reclaimable_bytes(fps@, delete@.take(i as int)),
    {
        proof {
            lemma_reclaimable_grows(fps@, delete@, i + 1);
            assert(delete@.take(i + 1).drop_last() =~= delete@.take(i as int));
        }
        bytes = bytes + fps[delete[i]].file_size;
    }
    assert(delete@.take(delete@.len() as int) =~= delete@);
    bytes
}

/// Whether a file stands in some group.
pub open spec fn is_grouped(groups: Seq<Vec<usize>>, x: usize) -> bool {
    exists|i: int| 0 <= i < groups.len() && (#[trigger] groups[i])@.contains(x)
}

/// The files that stand in some group, in order, once each.
pub open spec fn are_grouped(groups: Seq<Vec<usize>>, list: Seq<usize>) -> bool {
    &&& forall|x: usize| #[trigger] list.contains(x) <==> is_grouped(groups, x)
    &&& forall|i: int, j: int| 0 <= i < j < list.len() ==> #[trigger] list[i] < #[trigger] list[j]
}

/// Every file that stands in some group, once each.
pub fn matched_files(groups: &Vec<Vec<usize>>, n: usize) -> (list: Vec<usize>)
    requires
        forall|i: int| 0 <= i < groups@.len() ==> in_range((#[trigger] groups@[i])@, n as nat),
    ensures
        are_grouped(groups@, list@),
{
    let mut marks: Vec<bool> = Vec::new();
    for i in 0..n
        invariant
            marks@.len() == i,
            forall|x: int| 0 <= x < i ==> !#[trigger] marks@[x],
    {
        marks.push(false);
    }
    for i in 0..groups.len()
        invariant
            forall|i: int| 0 <= i < groups@.len() ==> in_range((#[trigger] groups@[i])@, n as nat),
            marks@.len() == n,
            forall|x: usize|
                x < n ==> (#[trigger] marks@[x as int] <==> is_grouped(groups@.take(i as int), x)),
    {
        let group = &groups[i];
        let ghost before = marks@;
        assert(in_range(groups@[i as int]@, n as nat));
        for j in 0..group.len()
            invariant
                in_range(group@, n as nat),
                marks@.len() == n,
                before.len() == n,
                forall|x: usize|
                    x < n ==> (#[trigger] marks@[x as int] <==> before[x as int]
                        || group@.take(j as int).contains(x)),
        {
            let y = group[j];
            proof {
                assert(group@.take(j + 1) =~= group@.take(j as int).push(y));
                lemma_push_contains(group@.take(j as int), y);
            }
            marks.set(y, true);
        }
        proof {
            assert(group@.take(group@.len() as int) =~= group@);
            let more = groups@.take(i + 1);
            let less = groups@.take(i as int);
            assert forall|x: usize| x < n implies (#[trigger] marks@[x as int] <==> is_grouped(
                more,
                x,
            )) by {
                assert(before[x as int] <==> is_grouped(less, x));
                if is_grouped(less, x) {
                    let k = choose|k: int| 0 <= k < less.len() && (#[trigger] less[k])@.contains(x);
                    assert(more[k] == less[k]);
                }
                if group@.contains(x) {
                    assert(more[i as int]@.contains(x));
                }
                if is_grouped(more, x) {
                    let k = choose|k: int| 0 <= k < more.len() && (#[trigger] more[k])@.contains(x);
                    if k < i {
                        assert(less[k] == more[k]);
                    }
                }
            }
        }
    }
    assert(groups@.take(groups@.len() as int) =~= groups@);
    let mut list: Vec<usize> = Vec::new();
    for x in 0..n
        invariant
            marks@.len() == n,
            forall|y: usize| #[trigger] list@.contains(y) <==> y < x && marks@[y as int],
            forall|i: int, j: int|
                0 <= i < j < list@.len() ==> #[trigger] list@[i] < #[trigger] list@[j],
            forall|i: int| 0 <= i < list@.len() ==> #[trigger] list@[i] < x,
    {
        proof {
            lemma_push_contains(list@, x);
        }
        if marks[x] {
            list.push(x);
        }
    }
    proof {
        assert forall|x: usize| #[trigger] list@.contains(x) <==> is_grouped(groups@, x) by {
            if is_grouped(groups@, x) {
                let k = choose|k: int| 0 <= k < groups@.len() && (#[trigger] groups@[k])@.contains(x);
                let g = groups@[k]@;
                let m = choose|m: int| 0 <= m < g.len() && g[m] == x;
                assert(in_range(groups@[k]@, n as nat));
                assert(g[m] < n);
            }
        }
    }
    list
}

/// What a run says at its end.
pub open spec fn summary_text(
    groups: nat,
    files: nat,
    elapsed: nat,
    disposal: Option<Disposal>,
    declined: bool,
    targets: nat,
    bytes: nat,
    t: Tally,
) -> Seq<char> {
    "Total groups found: "@ + decimal(groups) + "\nTotal files matched: "@ + decimal(files)
        + "\nTotal time elapsed: "@ + clock_text(elapsed) + match disposal {
        None => (if targets > 0 {
            "\nReclaimable: "@ + size_text(bytes) + " across "@ + decimal(targets)
                + " file(s) marked DELETE (nothing was removed)."@
        } else {
            Seq::empty()
        }) + (if declined {
            "\nCancelled at the confirmation prompt."@
        } else {
            Seq::empty()
        }),
        Some(d) => "\n"@ + disposed_text(&d, t.removed_count as nat, t.removed_bytes as nat)
            + aliased_text(t.aliased_count as nat, t.aliased_bytes as nat) + trouble_text(
            t.failed_count as nat,
            t.changed_count as nat,
        ),
    }
}

/// The counts, the reclaimable total and what the disposal did.
pub fn summary(
    groups: usize,
    files: usize,
    elapsed: u64,
    disposal: &Option<Disposal>,
    declined: bool,
    targets: usize,
    bytes: u64,
    t: &Tally,
) -> (text: String)
    ensures
        text@ == summary_text(
            groups as nat,
            files as nat,
            elapsed as nat,
            *disposal,
            declined,
            targets as nat,
            bytes as nat,
            *t,
        ),
{
    let mut text = "Total groups found: ".to_owned();
    text.append(number(groups as u64).as_str());
    text.append("\nTotal files matched: ");
    text.append(number(files as u64).as_str());
    text.append("\nTotal time elapsed: ");
    text.append(clock(elapsed).as_str());
    match disposal {
        None => {
            if targets > 0 {
                text.append("\nReclaimable: ");
                text.append(format_size(bytes).as_str());
                text.append(" across ");
                text.append(number(targets as u64).as_str());
                text.append(" file(s) marked DELETE (nothing was removed).");
            }
            if declined {
                text.append("\nCancelled at the confirmation prompt.");
            }
        },
        Some(d) => {
            text.append("\n");
            text.append(disposed_line(d, t.removed_count, t.removed_bytes).as_str());
            text.append(aliased_line(t.aliased_count, t.aliased_bytes).as_str());
            text.append(trouble_lines(t.failed_count, t.changed_count).as_str());
        },
    }
    assert(text@ =~= summary_text(
        groups as nat,
        files as nat,
        elapsed as nat,
        *disposal,
        declined,
        targets as nat,
        bytes as nat,
        *t,
    ));
    text
}

/// Everything a run found, decided and did.
pub struct Results {
    pub fates: Fates,
    /// What the run acted with: nothing where it was not asked to, or not allowed.
    pub disposal: Option<Disposal>,
    pub declined: bool,
    pub matched_files: usize,
    pub reclaimable_bytes: u64,
    pub tally: Tally,
    pub groups: Vec<GroupRows>,
    pub summary: String,
}

impl Results {
    /// Whether to say how to act on what was found: there is something to clean up,
    /// and nobody was asked.
    pub fn wants_nudge(&self) -> (yes: bool)
        ensures
            yes <==> self.disposal is None && !self.declined && self.fates.delete@.len() > 0,
    {
        let acting = match &self.disposal {
            Some(_) => true,
            None => false,
        };
        !acting && !self.declined && self.fates.delete.len() > 0
    }
}

/// Whether the disposal pass went as it should, and its problems were recorded: nothing
/// is touched where the run does not act.
pub open spec fn is_acted<K: Fn(usize) -> OnDisk, R: Fn(usize) -> bool, S: Fn() -> bool>(
    fps: Seq<VideoFingerprint>,
    delete: Seq<usize>,
    disposal: Option<Disposal>,
    look: &K,
    remove: &R,
    stop: &S,
    tally: Tally,
    before: RunStats,
    after: RunStats,
) -> bool {
    match disposal {
        None => adds_up(fps, delete, Seq::empty(), tally) && after == before,
        Some(d) => exists|disks: Seq<OnDisk>, fates: Seq<Fate>|
            #[trigger] is_pass(fps, delete, &d, look, remove, stop, disks, fates) && adds_up(
                fps,
                delete,
                fates,
                tally,
            ) && is_noted(fps, delete, disks, fates, before, after),
    }
}

/// The targets are files, in order, each once.
proof fn lemma_resolved_targets<
    B: Fn(&Vec<usize>, Priority) -> usize,
    L: Fn(&Vec<usize>, usize, Priority) -> bool,
>(
    fps: Seq<VideoFingerprint>,
    groups: Seq<Vec<usize>>,
    priority: Priority,
    best: &B,
    leads: &L,
    f: Fates,
)
    requires
        forall|i: int| 0 <= i < groups.len() ==> in_range((#[trigger] groups[i])@, fps.len()),
        is_resolved(fps, groups, priority, best, leads, f),
    ensures
        is_target_list(f.delete@, fps.len()),
{
    let gs = choose|gs: Seq<Grounds>|
        #[trigger] are_grounds(fps, groups, priority, best, leads, gs) && are_fates(
            fps,
            groups,
            priority,
            gs,
            f,
        );
    assert forall|i: int| 0 <= i < f.delete@.len() implies #[trigger] f.delete@[i]
        < fps.len() by {
        let x = f.delete@[i];
        assert(f.delete@.contains(x));
        let k = choose|k: int|
            0 <= k < groups.len() && is_doomed(fps, groups[k]@, priority, #[trigger] gs[k], x);
        let g = groups[k]@;
        let m = choose|m: int| 0 <= m < g.len() && g[m] == x;
        assert(in_range(groups[k]@, fps.len()));
        assert(g[m] < fps.len());
    }
}

/// The targets of a run weigh no more than all of its files together.
pub proof fn lemma_targets_weigh_no_more_than_the_files<
    B: Fn(&Vec<usize>, Priority) -> usize,
    L: Fn(&Vec<usize>, usize, Priority) -> bool,
>(
    fps: Seq<VideoFingerprint>,
    groups: Seq<Vec<usize>>,
    priority: Priority,
    best: &B,
    leads: &L,
    f: Fates,
)
    requires
        forall|i: int| 0 <= i < groups.len() ==> in_range((#[trigger] groups[i])@, fps.len()),
        is_resolved(fps, groups, priority, best, leads, f),
    ensures
        reclaimable_bytes(fps, f.delete@) <= total_bytes(fps, fps.len() as int),
{
    lemma_resolved_targets(fps, groups, priority, best, leads, f);
    lemma_targets_within(fps, f.delete@, fps.len() as int);
}

/// Resolve every duplicate group, act on the targets where asked and allowed to, and
/// put together what is reported.
///
/// `approve` is asked of the targets alone, and only where the run is to act. Declined,
/// the run is what it would have been without being asked to act: nothing is looked at
/// and nothing is removed. `look` and `remove` are asked of targets that were approved,
/// and `remove` only of one that a look does not show to have changed.
pub fn output_results<B, L, A, K, R, S>(
    final_groups: &Vec<Vec<usize>>,
    fingerprints: &[VideoFingerprint],
    matches: &MatchIndex,
    total_elapsed_secs: u64,
    priority: Priority,
    disposal: Option<Disposal>,
    best: &B,
    leads: &L,
    approve: &A,
    look: &K,
    remove: &R,
    stop: &S,
    stats: &mut RunStats,
) -> (results: Results) where
    B: Fn(&Vec<usize>, Priority) -> usize,
    L: Fn(&Vec<usize>, usize, Priority) -> bool,
    A: Fn(&Vec<usize>) -> bool,
    K: Fn(usize) -> OnDisk,
    R: Fn(usize) -> bool,
    S: Fn() -> bool,

    requires
        final_groups@.len() < u64::MAX,
        forall|i: int|
            0 <= i < final_groups@.len() ==> (#[trigger] final_groups@[i])@.len() > 0 && in_range(
                final_groups@[i]@,
                fingerprints@.len(),
            ),
        is_ranking(best, fingerprints@.len()),
        is_tiering(leads, fingerprints@.len()),
        stop.requires(()),
        forall|f: Fates| #[trigger]
            is_resolved(fingerprints@, final_groups@, priority, best, leads, f)
                ==> reclaimable_bytes(fingerprints@, f.delete@) <= u64::MAX,
        forall|f: Fates|
            disposal is Some && #[trigger] is_resolved(
                fingerprints@,
                final_groups@,
                priority,
                best,
                leads,
                f,
            ) ==> approve.requires((&f.delete,)),
        forall|f: Fates, x: usize|
            disposal is Some && #[trigger] is_resolved(
                fingerprints@,
                final_groups@,
                priority,
                best,
                leads,
                f,
            ) && approve.ensures((&f.delete,), true) && stop.ensures((), false)
                && #[trigger] f.delete@.contains(x) ==> look.requires((x,)),
        forall|f: Fates, x: usize, disk: OnDisk|
            disposal is Some && #[trigger] is_resolved(
                fingerprints@,
                final_groups@,
                priority,
                best,
                leads,
                f,
            ) && approve.ensures((&f.delete,), true) && stop.ensures((), false)
                && f.delete@.contains(x) && #[trigger] look.ensures((x,), disk) && !is_changed(
                fingerprints@[x as int].file_size,
                disk.size,
            ) ==> remove.requires((x,)),
    ensures
        is_resolved(fingerprints@, final_groups@, priority, best, leads, results.fates),
        results.declined ==> disposal is Some && results.disposal is None && approve.ensures(
            (&results.fates.delete,),
            false,
        ),
        !results.declined ==> results.disposal == disposal,
        !results.declined && disposal is Some ==> approve.ensures(
            (&results.fates.delete,),
            true,
        ),
        results.reclaimable_bytes == reclaimable_bytes(
            fingerprints@,
            results.fates.delete@,
        ),
        is_acted(
            fingerprints@,
            results.fates.delete@,
            results.disposal,
            look,
            remove,
            stop,
            results.tally,
            *old(stats),
            *final(stats),
        ),
        exists|list: Seq<usize>| #[trigger]
            are_grouped(final_groups@, list) && list.len() == results.matched_files,
        results.groups@.len() == final_groups@.len(),
        rows_are_full(results.groups@),
        forall|i: int|
            0 <= i < final_groups@.len() ==> are_group_rows(
                #[trigger] results.groups@[i],
                i,
                final_groups@[i]@,
                matches,
                fingerprints,
                results.fates.review@,
                results.fates.doomed@,
                results.disposal,
                results.tally.outcome@,
            ),
        results.summary@ == summary_text(
            final_groups@.len(),
            results.matched_files as nat,
            total_elapsed_secs as nat,
            results.disposal,
            results.declined,
            results.fates.delete@.len(),
            results.reclaimable_bytes as nat,
            results.tally,
        ),
{
    let fates = resolve(final_groups, fingerprints, priority, best, leads);
    proof {
        lemma_resolved_targets(fingerprints@, final_groups@, priority, best, leads, fates);
    }
    let bytes = reclaimable(fingerprints, &fates.delete);
    let (acting, declined): (Option<Disposal>, bool) = match disposal {
        None => (None, false),
        Some(d) => {
            assert(approve.requires((&fates.delete,)));
            let allowed = approve(&fates.delete);
            assert(approve.ensures((&fates.delete,), allowed));
            if allowed {
                (Some(d), false)
            } else {
                (None, true)
            }
        },
    };
    let tally = match &acting {
        None => {
            let t = untouched(fingerprints.len());
            assert(texts(t.gone@) =~= Seq::<Seq<char>>::empty());
            t
        },
        Some(d) => dispose_all(&fates.delete, fingerprints, d, look, remove, stop, stats),
    };
    let mut groups: Vec<GroupRows> = Vec::new();
    for i in 0..final_groups.len()
        invariant
            final_groups@.len() < u64::MAX,
            forall|i: int|
                0 <= i < final_groups@.len() ==> (#[trigger] final_groups@[i])@.len() > 0
                    && in_range(final_groups@[i]@, fingerprints@.len()),
            fates.review@.len() == fingerprints@.len(),
            fates.doomed@.len() == fingerprints@.len(),
            tally.outcome@.len() == fingerprints@.len(),
            groups@.len() == i,
            forall|k: int, j: int|
                0 <= k < i && 0 <= j < groups@[k].rows@.len() ==> (
                #[trigger] groups@[k].rows@[j])@.len() == crate::rows::COLUMNS,
            forall|k: int|
                0 <= k < i ==> are_group_rows(
                    #[trigger] groups@[k],
                    k,
                    final_groups@[k]@,
                    matches,
                    fingerprints,
                    fates.review@,
                    fates.doomed@,
                    acting,
                    tally.outcome@,
                ),
    {
        assert(final_groups@[i as int]@.len() > 0);
        let rows = group_rows(
            i,
            &final_groups[i],
            matches,
            fingerprints,
            &fates.review,
            &fates.doomed,
            &acting,
            &tally.outcome,
        );
        let ghost before = groups@;
        groups.push(rows);
        proof {
            assert forall|k: int, j: int|
                0 <= k < i + 1 && 0 <= j < groups@[k].rows@.len() implies (
            #[trigger] groups@[k].rows@[j])@.len() == crate::rows::COLUMNS by {
                if k < i {
                    assert(groups@[k] == before[k]);
                    assert(before[k].rows@[j]@.len() == crate::rows::COLUMNS);
                }
            }
        }
    }
    proof {
        assert forall|i: int| 0 <= i < final_groups@.len() implies in_range(
            (#[trigger] final_groups@[i])@,
            fingerprints@.len(),
        ) by {
            assert(final_groups@[i]@.len() > 0);
        }
    }
    let list = matched_files(final_groups, fingerprints.len());
    assert(are_grouped(final_groups@, list@));
    let text = summary(
        final_groups.len(),
        list.len(),
        total_elapsed_secs,
        &acting,
        declined,
        fates.delete.len(),
        bytes,
        &tally,
    );
    Results {
        fates,
        disposal: acting,
        declined,
        matched_files: list.len(),
        reclaimable_bytes: bytes,
        tally,
        groups,
        summary: text,
    }
}

} // verus!
