//! What walking through a video promises: when its keyframes happen, which of them are
//! sampled, and what a jump leaves out.

use crate::container::{ceiling, Thinning};
use crate::demux::{
    frame_time, is_fresh, is_jump, is_recovery, is_step, is_stumble, packet_time, spacing, tick_of,
    Clock, Step, Walk,
};
use crate::headers::is_rounded_up;
use crate::quantity::{lemma_scaled, Seconds};
use vstd::prelude::*;

verus! {

/// A clock that runs forwards counts what passes between two keyframes, to the tick.
pub proof fn lemma_a_clock_counts_the_gap(c: Clock, a: i64, b: i64)
    requires
        c.is_valid(),
        c.previous == Some(a),
        a <= b,
        c.elapsed + (b - a) <= i64::MAX,
    ensures
        tick_of(c, b).elapsed == c.elapsed + (b - a),
        tick_of(c, b).restarted == c.restarted,
        tick_of(c, b).previous == Some(b),
{
}

/// A clock that is set back counts as much as the last time it moved on, and is known to
/// have restarted from then on. What passes after that is counted from where it was set
/// back to.
pub proof fn lemma_a_restart_counts_the_last_gap(c: Clock, a: i64, b: i64, r: i64, s: i64)
    requires
        c.is_valid(),
        c.previous == Some(a),
        a < b,
        r < b,
        r <= s,
        c.elapsed + 2 * (b - a) + (s - r) <= i64::MAX,
    ensures
        tick_of(tick_of(c, b), r).elapsed == c.elapsed + 2 * (b - a),
        tick_of(tick_of(tick_of(c, b), b), r).elapsed == c.elapsed + 2 * (b - a),
        tick_of(tick_of(c, b), r).restarted,
        tick_of(tick_of(tick_of(c, b), r), s).elapsed == c.elapsed + 2 * (b - a) + (s - r),
        tick_of(tick_of(tick_of(c, b), r), s).restarted,
{
}

/// The first keyframe happens at nothing. A clock that is set back before it ever moved on
/// counts a single tick.
pub proof fn lemma_a_clock_starts_at_nothing(c: Clock, a: i64, r: i64)
    requires
        is_fresh(c),
        r < a,
    ensures
        tick_of(c, a).elapsed == 0,
        !tick_of(c, a).restarted,
        tick_of(tick_of(c, a), r).elapsed == 1,
        tick_of(tick_of(c, a), r).restarted,
{
}

/// A frame is shown at the whole milliseconds of its ticks, where its time and the unit
/// of the clock are known.
pub proof fn lemma_a_frame_is_shown_at_its_ticks(
    stamp: Option<i64>,
    tb_num: i32,
    tb_den: i32,
    ms: Option<u32>,
)
    requires
        call_ensures(frame_time, (stamp, tb_num, tb_den), ms),
    ensures
        ms is Some <==> (stamp matches Some(ts) && ts >= 0 && tb_num > 0 && tb_den > 0),
        ms matches Some(t) ==> t * tb_den <= stamp->0 * (tb_num * 1000),
        ms matches Some(t) ==> t < u32::MAX ==> stamp->0 * (tb_num * 1000) < (t + 1) * tb_den,
{
    if let Some(t) = ms {
        let ts = stamp->0;
        let (a, b, d) = (ts as nat, (tb_num * 1000) as nat, tb_den as nat);
        lemma_scaled(a, b, d);
        let q = crate::quantity::scaled(a, b, d);
        if q > u32::MAX {
            assert(t * d <= q * d) by (nonlinear_arith)
                requires
                    t <= q,
            ;
        }
    }
}

/// Samples are kept as far apart as asked for, or as far as leaves the fewest samples
/// asked for where that is closer: in ticks, rounded up. They are not thinned out at all
/// where no interval was asked for, or the runtime or the unit of the clock is unknown.
pub proof fn lemma_spacing_is_the_interval_in_ticks(
    t: Thinning,
    length: Seconds,
    tb_num: i32,
    tb_den: i32,
    ticks: Option<u64>,
    asked: nat,
    floor: nat,
)
    requires
        call_ensures(spacing, (t, length, tb_num, tb_den), ticks),
        t.interval.den() > 0,
        length.den() > 0,
        asked < u64::MAX,
        floor < u64::MAX,
        tb_num > 0 ==> is_rounded_up(
            asked as int,
            t.interval.num() * tb_den,
            t.interval.den() * tb_num,
        ),
        tb_num > 0 && t.min_samples.part() > 0 ==> is_rounded_up(
            floor as int,
            (length.num() * t.min_samples.whole()) * tb_den,
            (length.den() * t.min_samples.part()) * tb_num,
        ),
    ensures
        ticks is Some <==> t.interval.num() > 0 && length.num() > 0 && tb_num > 0 && tb_den > 0,
        ticks is Some && t.min_samples.part() == 0 ==> ticks->0 == asked,
        ticks is Some && t.min_samples.part() > 0 && asked <= floor ==> ticks->0 == asked,
        ticks is Some && t.min_samples.part() > 0 && floor <= asked ==> ticks->0 == floor,
{
    if t.interval.num() > 0 && length.num() > 0 && tb_num > 0 && tb_den > 0 {
        let (n, d) = (t.interval.num() * tb_den as nat, t.interval.den() * tb_num as nat);
        assert(d > 0) by (nonlinear_arith)
            requires
                d == t.interval.den() * tb_num as nat,
                t.interval.den() > 0,
                tb_num as nat > 0,
        ;
        lemma_ticks(n, d, asked);
        if t.min_samples.part() > 0 {
            let e = length.den() * t.min_samples.part();
            assert(e > 0) by (nonlinear_arith)
                requires
                    e == length.den() * t.min_samples.part(),
                    length.den() > 0,
                    t.min_samples.part() > 0,
            ;
            let (m, f) = ((length.num() * t.min_samples.whole()) * tb_den as nat, e * tb_num as nat);
            assert(f > 0) by (nonlinear_arith)
                requires
                    f == e * tb_num as nat,
                    e > 0,
                    tb_num as nat > 0,
            ;
            lemma_ticks(m, f, floor);
        }
    }
}

proof fn lemma_ticks(n: nat, d: nat, out: nat)
    requires
        d > 0,
        is_rounded_up(out as int, n as int, d as int),
        out < u64::MAX,
    ensures
        crate::fingerprint::capped(ceiling(n, d)) == out,
{
    let (q, r) = ((n / d) as int, (n % d) as int);
    let (m, e, o) = (n as int, d as int, out as int);
    vstd::arithmetic::div_mod::lemma_fundamental_div_mod(m, e);
    vstd::arithmetic::div_mod::lemma_mod_bound(m, e);
    if m == 0 {
        assert(q == 0 && r == 0) by (nonlinear_arith)
            requires
                0 == e * q + r,
                0 <= r < e,
        ;
    } else {
        if r == 0 {
            assert(o == q) by (nonlinear_arith)
                requires
                    m == e * q,
                    m <= o * e,
                    (o - 1) * e < m,
                    e > 0,
            ;
        } else {
            assert(o == q + 1) by (nonlinear_arith)
                requires
                    m == e * q + r,
                    0 < r < e,
                    m <= o * e,
                    (o - 1) * e < m,
                    e > 0,
            ;
        }
    }
}

/// A packet is known by its decoding time, and by the time it is shown at where it has
/// none.
pub proof fn lemma_a_packet_is_known_by_when_it_is_decoded(dts: Option<i64>, pts: Option<i64>)
    ensures
        dts is Some ==> packet_time(dts, pts) == dts,
        dts is None ==> packet_time(dts, pts) == pts,
{
}

/// A packet that holds no keyframe is not sampled, and says only that the demuxer hands
/// over everything.
pub proof fn lemma_only_keyframes_are_sampled(
    before: Walk,
    ts: Option<i64>,
    after: Walk,
    step: Step,
)
    requires
        is_step(before, false, ts, after, step),
    ensures
        step is Skip,
        after.reads_everything,
        after.clock == before.clock,
        after.last_key == before.last_key,
        after.last_kept == before.last_kept,
        after.after_seek == before.after_seek,
        after.seeking_broken == before.seeking_broken,
        after.spacing == before.spacing,
        after.errors == before.errors,
{
}

/// Every keyframe is sampled where samples are not thinned out, where none has been yet,
/// or where the keyframe has no time. Else it is where it lies the spacing past the last
/// one sampled, by the walk's own clock, and not where it lies closer.
pub proof fn lemma_which_keyframes_are_sampled(
    before: Walk,
    ts: Option<i64>,
    after: Walk,
    step: Step,
    stamp: Option<i64>,
    keep: bool,
    seek: Option<i64>,
)
    requires
        is_step(before, true, ts, after, step),
        step == (Step::Key { stamp, keep, seek }),
    ensures
        ts is None ==> stamp is None && keep,
        ts is Some ==> stamp == Some(tick_of(before.clock, ts->0).elapsed) && after.last_key == ts,
        before.spacing is None || before.last_kept is None ==> keep,
        before.spacing is Some && before.last_kept is Some && ts is Some ==> (keep <==> stamp->0
            - before.last_kept->0 >= before.spacing->0),
        before.spacing is Some && ts is Some && keep ==> after.last_kept == stamp,
        !keep ==> after.last_kept == before.last_kept,
        after.spacing == before.spacing,
        !after.after_seek,
{
}

/// A walk jumps where the demuxer hands over everything, jumping has not been given up,
/// and the keyframe has a time that its container's clock did not go back to. It jumps
/// past the keyframe, by a tick where samples are not thinned out.
pub proof fn lemma_where_a_walk_jumps(
    before: Walk,
    t: i64,
    after: Walk,
    step: Step,
    keep: bool,
    now: i64,
    seek: Option<i64>,
)
    requires
        before.is_valid(),
        is_step(before, true, Some(t), after, step),
        step == (Step::Key { stamp: Some(now), keep, seek }),
    ensures
        seek is Some <==> before.reads_everything && !before.seeking_broken
            && !after.clock.restarted,
        seek matches Some(to) ==> to > t || to == i64::MAX,
        seek is Some && before.spacing is None && t < i64::MAX ==> seek == Some((t + 1) as i64),
        before.seeking_broken ==> after.seeking_broken,
        after.clock.restarted ==> after.seeking_broken,
{
}

/// A walk that meets keyframes without a time in a file that is handed over whole stops
/// jumping.
pub proof fn lemma_no_jumps_without_a_time(before: Walk, after: Walk, step: Step)
    requires
        is_step(before, true, None, after, step),
    ensures
        step == (Step::Key { stamp: None, keep: true, seek: None }),
        before.reads_everything ==> after.seeking_broken,
{
}

/// A jump leaves out nothing that would have been sampled: a keyframe that it passes over
/// is too close to the last one sampled. It goes no less far than it could: where samples
/// are thinned out, a keyframe it lands on is sampled.
pub proof fn lemma_a_jump_leaves_out_no_sample(
    before: Walk,
    t: i64,
    after: Walk,
    step: Step,
    keep: bool,
    now: i64,
    to: i64,
    next: i64,
    then: Walk,
    did: Step,
    stamp: Option<i64>,
    sampled: bool,
    seek: Option<i64>,
)
    requires
        before.is_valid(),
        is_step(before, true, Some(t), after, step),
        step == (Step::Key { stamp: Some(now), keep, seek: Some(to) }),
        t < next <= to,
        now + (next - t) <= i64::MAX,
        is_step(after, true, Some(next), then, did),
        did == (Step::Key { stamp, keep: sampled, seek }),
    ensures
        next < to ==> !sampled,
        next == to < i64::MAX ==> sampled,
{
}

/// A keyframe that was met before a jump is not met again: after one, only those past the
/// last one met count. Without a time, or a jump, none is taken for a repeat.
pub proof fn lemma_what_counts_after_a_jump(
    before: Walk,
    ts: Option<i64>,
    after: Walk,
    step: Step,
)
    requires
        is_step(before, true, ts, after, step),
    ensures
        step is Skip <==> before.after_seek && ts is Some && before.last_key is Some && ts->0
            <= before.last_key->0,
        step is Skip ==> after == before,
{
}

/// The walk after so many reads in a row failed with something left of the file, and
/// whether the last of them ended it.
pub open spec fn is_failing(walks: Seq<Walk>, ends: Seq<bool>) -> bool {
    &&& walks.len() == ends.len() + 1
    &&& forall|k: int, l: int|
        0 <= k && l == k + 1 && l < walks.len() ==> is_stumble(
            #[trigger] walks[k],
            false,
            #[trigger] walks[l],
            ends[k],
        )
}

proof fn lemma_failures_add_up(walks: Seq<Walk>, ends: Seq<bool>, n: int)
    requires
        is_failing(walks, ends),
        0 <= n < walks.len() <= u32::MAX,
        walks[0].errors == 0,
    ensures
        walks[n].errors == n,
    decreases n,
{
    if n > 0 {
        lemma_failures_add_up(walks, ends, n - 1);
        assert(is_stumble(walks[n - 1], false, walks[n], ends[n - 1]));
    }
}

/// A file is given up at the thousand and twenty-fourth read in a row that fails, and not
/// before. One good read starts the count again, and an end of the file ends it at once.
pub proof fn lemma_when_a_file_is_given_up(
    first: Walk,
    walks: Seq<Walk>,
    ends: Seq<bool>,
    n: int,
    last: Walk,
    finished: bool,
)
    requires
        walks.len() > 0,
        walks.len() <= u32::MAX,
        is_recovery(first, walks[0]),
        is_failing(walks, ends),
        0 <= n < ends.len(),
        is_stumble(first, true, last, finished),
    ensures
        ends[n] <==> n >= 1023,
        finished,
{
    lemma_failures_add_up(walks, ends, n);
    lemma_failures_add_up(walks, ends, n + 1);
    assert(is_stumble(walks[n], false, walks[n + 1], ends[n]));
}

/// Reading, failing and jumping leave what was met, timed and sampled as it was. A jump
/// that failed is the last.
pub proof fn lemma_what_a_read_and_a_jump_leave(
    before: Walk,
    spent: bool,
    finished: bool,
    ok: bool,
    read: Walk,
    failed: Walk,
    jumped: Walk,
)
    requires
        is_recovery(before, read),
        is_stumble(before, spent, failed, finished),
        is_jump(before, ok, jumped),
    ensures
        read.clock == before.clock && failed.clock == before.clock && jumped.clock == before.clock,
        read.last_key == before.last_key && failed.last_key == before.last_key && jumped.last_key
            == before.last_key,
        read.last_kept == before.last_kept && failed.last_kept == before.last_kept
            && jumped.last_kept == before.last_kept,
        read.spacing == before.spacing && failed.spacing == before.spacing && jumped.spacing
            == before.spacing,
        ok ==> jumped.after_seek && jumped.seeking_broken == before.seeking_broken,
        !ok ==> jumped.seeking_broken && jumped.after_seek == before.after_seek,
        read.after_seek == before.after_seek && read.seeking_broken == before.seeking_broken,
        failed.after_seek == before.after_seek && failed.seeking_broken == before.seeking_broken,
{
}

} // verus!
