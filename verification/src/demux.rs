//! Walking through a video from keyframe to keyframe: which are sampled, when each
//! happens, and where to jump next.

use crate::container::{ceiling, scale_up, Thinning};
use crate::fingerprint::capped;
use crate::quantity::{scale, scaled, Seconds};
use vstd::prelude::*;

verus! {

/// How many times in a row the demuxer may fail before the file is treated as finished.
pub const MAX_CONSECUTIVE_DEMUX_ERRORS: u32 = 1024;

/// The clock that samples are timed by: the gaps between keyframes, added up.
///
/// A container's own clock need not run forwards for the whole file: two recordings
/// joined end to end restart it at the join. This one only ever moves forward.
#[derive(Clone, Copy, Debug, PartialEq, Eq, Structural)]
pub struct Clock {
    /// The container's time of the keyframe before.
    pub previous: Option<i64>,
    pub elapsed: i64,
    /// The last forward gap, which is what a restart is charged.
    pub last_gap: i64,
    pub restarted: bool,
}

/// A sum, or the largest number where it does not fit.
pub open spec fn sum_capped(a: int, b: int) -> i64 {
    if a + b <= i64::MAX {
        (a + b) as i64
    } else {
        i64::MAX
    }
}

/// A clock that has not seen a keyframe.
pub open spec fn is_fresh(c: Clock) -> bool {
    c.previous is None && c.elapsed == 0 && c.last_gap == 0 && !c.restarted
}

/// The clock after a keyframe at the container's time `ts`.
pub open spec fn tick_of(c: Clock, ts: i64) -> Clock {
    match c.previous {
        None => Clock { previous: Some(ts), elapsed: 0, ..c },
        Some(previous) => if ts >= previous {
            let gap = sum_capped(ts as int, -previous);
            Clock {
                previous: Some(ts),
                elapsed: sum_capped(c.elapsed as int, gap as int),
                last_gap: if gap > 0 {
                    gap
                } else {
                    c.last_gap
                },
                restarted: c.restarted,
            }
        } else {
            Clock {
                previous: Some(ts),
                elapsed: sum_capped(
                    c.elapsed as int,
                    if c.last_gap > 1 {
                        c.last_gap as int
                    } else {
                        1
                    },
                ),
                last_gap: c.last_gap,
                restarted: true,
            }
        },
    }
}

fn add_capped(a: i64, b: i64) -> (out: i64)
    requires
        a >= 0,
        b >= 0,
    ensures
        out == sum_capped(a as int, b as int),
{
    if a <= i64::MAX - b {
        a + b
    } else {
        i64::MAX
    }
}

impl Clock {
    /// Time starts at nothing and gaps are never negative.
    pub open spec fn is_valid(&self) -> bool {
        self.elapsed >= 0 && self.last_gap >= 0
    }

    /// A clock that has not seen a keyframe.
    pub fn new() -> (c: Clock)
        ensures
            is_fresh(c),
            c.is_valid(),
    {
        Clock { previous: None, elapsed: 0, last_gap: 0, restarted: false }
    }

    /// Count one keyframe at the container's time `ts`.
    pub fn tick(&mut self, ts: i64) -> (now: i64)
        requires
            old(self).is_valid(),
        ensures
            *final(self) == tick_of(*old(self), ts),
            now == final(self).elapsed,
            final(self).is_valid(),
    {
        match self.previous {
            None => {
                self.elapsed = 0;
            },
            Some(previous) => {
                if ts >= previous {
                    let gap: i64 = if previous >= 0 || ts <= i64::MAX + previous {
                        ts - previous
                    } else {
                        i64::MAX
                    };
                    if gap > 0 {
                        self.last_gap = gap;
                    }
                    self.elapsed = add_capped(self.elapsed, gap);
                } else {
                    self.restarted = true;
                    let gap: i64 = if self.last_gap > 1 {
                        self.last_gap
                    } else {
                        1
                    };
                    self.elapsed = add_capped(self.elapsed, gap);
                }
            },
        }
        self.previous = Some(ts);
        self.elapsed
    }
}

/// The clock after a number of keyframes.
pub open spec fn run(c: Clock, times: Seq<i64>) -> Clock
    decreases times.len(),
{
    if times.len() == 0 {
        c
    } else {
        tick_of(run(c, times.drop_last()), times.last())
    }
}

/// The clock never moves backwards, whatever the container's own does.
pub proof fn lemma_the_clock_never_moves_back(c: Clock, ts: i64)
    requires
        c.is_valid(),
        c.previous is Some,
    ensures
        tick_of(c, ts).elapsed >= c.elapsed,
        c.elapsed < i64::MAX && c.previous != Some(ts) ==> tick_of(c, ts).elapsed > c.elapsed,
{
}

/// Where the container's clock runs forwards, a sample's time is what has passed since
/// the first, to the tick.
pub proof fn lemma_a_forward_clock_is_kept(c: Clock, times: Seq<i64>)
    requires
        is_fresh(c),
        times.len() > 0,
        forall|i: int, j: int|
            0 <= i < j < times.len() ==> #[trigger] times[i] <= #[trigger] times[j],
        times.last() - times[0] <= i64::MAX,
    ensures
        run(c, times).elapsed == times.last() - times[0],
        run(c, times).previous == Some(times.last()),
        !run(c, times).restarted,
    decreases times.len(),
{
    let less = times.drop_last();
    if less.len() > 0 {
        assert(less.last() == times[times.len() - 2]);
        assert(times[times.len() - 2] <= times[times.len() - 1]);
        assert(less[0] == times[0]);
        assert(times[0] <= times[times.len() - 1]);
        if times.len() > 2 {
            assert(times[0] <= times[times.len() - 2]);
        }
        lemma_a_forward_clock_is_kept(c, less);
    } else {
        assert(run(c, less) == c);
    }
}

/// When a frame is shown, in milliseconds: nothing where its time or the clock's unit
/// is unknown.
pub open spec fn shown_at(stamp: Option<i64>, tb_num: i32, tb_den: i32) -> Option<u32> {
    match stamp {
        Some(ts) => if ts >= 0 && tb_num > 0 && tb_den > 0 {
            let ms = scaled(ts as nat, (tb_num * 1000) as nat, tb_den as nat);
            Some(
                if ms <= u32::MAX {
                    ms as u32
                } else {
                    u32::MAX
                },
            )
        } else {
            None
        },
        None => None,
    }
}

/// When a frame is shown, in milliseconds.
pub fn frame_time(stamp: Option<i64>, tb_num: i32, tb_den: i32) -> (ms: Option<u32>)
    ensures
        ms == shown_at(stamp, tb_num, tb_den),
{
    match stamp {
        Some(ts) => {
            if ts >= 0 && tb_num > 0 && tb_den > 0 {
                let ms = scale(ts as u64, tb_num as u128 * 1000, tb_den as u128);
                Some(
                    if ms <= u32::MAX as u64 {
                        ms as u32
                    } else {
                        u32::MAX
                    },
                )
            } else {
                None
            }
        },
        None => None,
    }
}

/// How many ticks a length of time takes, rounded up.
pub open spec fn ticks_of(num: nat, den: nat, tb_num: nat, tb_den: nat) -> nat {
    capped(ceiling(num * tb_den, den * tb_num))
}

/// How far apart samples have to be, in ticks of the stream's clock: the interval asked
/// for, or less where a short video would be left with too few. Nothing where samples
/// are not thinned out: no interval was asked for, or the runtime or the clock's unit
/// is unknown.
pub open spec fn spacing_of(t: Thinning, length: Seconds, tb_num: i32, tb_den: i32) -> Option<nat> {
    if t.interval.num() > 0 && length.num() > 0 && tb_num > 0 && tb_den > 0 {
        let asked = ticks_of(t.interval.num(), t.interval.den(), tb_num as nat, tb_den as nat);
        let floor = ticks_of(
            length.num() * t.min_samples.whole(),
            length.den() * t.min_samples.part(),
            tb_num as nat,
            tb_den as nat,
        );
        Some(
            if t.min_samples.part() > 0 && floor < asked {
                floor
            } else {
                asked
            },
        )
    } else {
        None
    }
}

/// How far apart samples have to be, in ticks.
pub fn spacing(t: Thinning, length: Seconds, tb_num: i32, tb_den: i32) -> (ticks: Option<u64>)
    ensures
        spacing_of(t, length, tb_num, tb_den) is Some <==> ticks is Some,
        ticks matches Some(n) ==> n == spacing_of(t, length, tb_num, tb_den)->0,
{
    let (num, den) = length.parts();
    let (every, every_den) = t.interval.parts();
    if every == 0 || num == 0 || tb_num <= 0 || tb_den <= 0 {
        return None;
    }
    let a: u64 = tb_den as u64;
    let b: u64 = tb_num as u64;
    proof {
        assert(0 < every_den * b <= 0xffff_ffff * 0x7fff_ffff) by (nonlinear_arith)
            requires
                0 < every_den <= 0xffff_ffff,
                0 < b <= 0x7fff_ffff,
        ;
        assert(a * every == every * a) by (nonlinear_arith);
    }
    let asked = scale_up(a, every, every_den as u128 * b as u128);
    let (part, whole) = t.min_samples.parts();
    if part == 0 {
        return Some(asked);
    }
    proof {
        assert(0 < den * part <= 0xffff_ffff * 0xffff_ffff) by (nonlinear_arith)
            requires
                0 < den <= 0xffff_ffff,
                0 < part <= 0xffff_ffff,
        ;
        let d = den * part;
        assert(0 < d * b <= 0x1_0000_0000_0000_0000 * 0x7fff_ffff) by (nonlinear_arith)
            requires
                0 < d <= 0x1_0000_0000_0000_0000,
                0 < b <= 0x7fff_ffff,
        ;
        assert(a * whole <= 0x7fff_ffff * 0xffff_ffff) by (nonlinear_arith)
            requires
                a <= 0x7fff_ffff,
                whole <= 0xffff_ffff,
        ;
        assert((a * whole) * num == (num * whole) * a) by (nonlinear_arith);
    }
    let floor = scale_up(a * whole as u64, num, den as u128 * part as u128 * b as u128);
    Some(
        if floor < asked {
            floor
        } else {
            asked
        },
    )
}

/// Where a walk through a video has got to.
pub struct Walk {
    pub clock: Clock,
    /// The container's time of the last keyframe met.
    pub last_key: Option<i64>,
    /// The clock's time of the last sample kept.
    pub last_kept: Option<i64>,
    /// Whether a jump was made that no keyframe has been accepted after yet.
    pub after_seek: bool,
    /// Whether the demuxer hands over what it was told to leave out.
    pub reads_everything: bool,
    /// Whether jumping has been given up.
    pub seeking_broken: bool,
    /// Failed reads in a row.
    pub errors: u32,
    /// How far apart samples have to be, where they are thinned out.
    pub spacing: Option<u64>,
}

/// What to do with a packet of the video stream.
#[derive(Clone, Copy, Debug, PartialEq, Eq, Structural)]
pub enum Step {
    /// Nothing: it is no keyframe, or one already met.
    Skip,
    /// Stamp it with the clock's time, where there is one; decode it, if it is kept;
    /// and jump to the given time, where one is given.
    Key { stamp: Option<i64>, keep: bool, seek: Option<i64> },
}

/// The time a packet is known by: its decoding time, or else its showing time.
pub open spec fn packet_time(dts: Option<i64>, pts: Option<i64>) -> Option<i64> {
    if dts is Some {
        dts
    } else {
        pts
    }
}

/// Whether a packet was met before: only asked after a jump, which alone can hand over
/// a keyframe twice.
pub open spec fn is_repeat(w: Walk, ts: Option<i64>) -> bool {
    w.after_seek && (ts matches Some(t) && (w.last_key matches Some(last) && t <= last))
}

/// The clock after a keyframe.
pub open spec fn clock_after(c: Clock, ts: Option<i64>) -> Clock {
    match ts {
        Some(t) => tick_of(c, t),
        None => c,
    }
}

/// When a keyframe happens, by the walk's own clock.
pub open spec fn stamp_of(c: Clock, ts: Option<i64>) -> Option<i64> {
    match ts {
        Some(t) => Some(tick_of(c, t).elapsed),
        None => None,
    }
}

/// Whether a keyframe is sampled: unless samples are thinned out and it is too close
/// to the last one kept. One without a time always is.
pub open spec fn is_kept(w: Walk, stamp: Option<i64>) -> bool {
    match (w.spacing, stamp, w.last_kept) {
        (Some(gap), Some(now), Some(last)) => now - last >= gap,
        _ => true,
    }
}

/// The last sample kept, after a keyframe.
pub open spec fn kept_after(w: Walk, stamp: Option<i64>) -> Option<i64> {
    if w.spacing is Some && stamp is Some && is_kept(w, stamp) {
        stamp
    } else {
        w.last_kept
    }
}

/// Whether jumping is given up at a keyframe: it was before, the container's clock has
/// been seen to restart, or there is no time to jump by.
pub open spec fn gives_up(w: Walk, ts: Option<i64>) -> bool {
    w.seeking_broken || clock_after(w.clock, ts).restarted || (w.reads_everything && ts is None)
}

/// How far to jump: one tick past the keyframe at least, and to where the next sample
/// can be where samples are thinned out.
pub open spec fn hop(w: Walk, stamp: Option<i64>) -> int {
    match (w.spacing, stamp, kept_after(w, stamp)) {
        (Some(gap), Some(now), Some(last)) => if last + gap - now > 1 {
            last + gap - now
        } else {
            1
        },
        _ => 1,
    }
}

/// Where to jump from a keyframe, where the demuxer reads everything and jumping works.
pub open spec fn seek_from(w: Walk, ts: Option<i64>) -> Option<i64> {
    match ts {
        Some(t) => if w.reads_everything && !gives_up(w, ts) {
            Some(sum_capped(t as int, hop(w, stamp_of(w.clock, ts))))
        } else {
            None
        },
        None => None,
    }
}

/// What follows a packet of the video stream.
pub open spec fn is_step(
    before: Walk,
    key: bool,
    ts: Option<i64>,
    after: Walk,
    step: Step,
) -> bool {
    if !key {
        after == (Walk { reads_everything: true, ..before }) && step == Step::Skip
    } else if is_repeat(before, ts) {
        after == before && step == Step::Skip
    } else {
        let stamp = stamp_of(before.clock, ts);
        &&& after == (Walk {
            clock: clock_after(before.clock, ts),
            last_key: if ts is Some {
                ts
            } else {
                before.last_key
            },
            last_kept: kept_after(before, stamp),
            after_seek: false,
            reads_everything: before.reads_everything,
            seeking_broken: gives_up(before, ts),
            errors: before.errors,
            spacing: before.spacing,
        })
        &&& step == (Step::Key {
            stamp,
            keep: is_kept(before, stamp),
            seek: seek_from(before, ts),
        })
    }
}

/// What follows a packet that was read: failures are counted from none again.
pub open spec fn is_recovery(before: Walk, after: Walk) -> bool {
    after == (Walk { errors: 0, ..before })
}

/// What follows a read that failed: one failure more in a row, and an end where nothing is
/// left or there were too many.
pub open spec fn is_stumble(before: Walk, spent: bool, after: Walk, finished: bool) -> bool {
    &&& after == (Walk {
        errors: if before.errors < u32::MAX {
            (before.errors + 1) as u32
        } else {
            u32::MAX
        },
        ..before
    })
    &&& finished <==> spent || after.errors >= MAX_CONSECUTIVE_DEMUX_ERRORS
}

/// What follows a jump: the next keyframe may have been met before, or there are no more
/// jumps.
pub open spec fn is_jump(before: Walk, ok: bool, after: Walk) -> bool {
    if ok {
        after == (Walk { after_seek: true, ..before })
    } else {
        after == (Walk { seeking_broken: true, ..before })
    }
}

impl Walk {
    /// The clock is in order, what was kept last lies behind it, and nothing is jumped
    /// through once the container's own clock was seen to restart.
    pub open spec fn is_valid(&self) -> bool {
        &&& self.clock.is_valid()
        &&& self.clock.restarted ==> self.seeking_broken
        &&& self.last_kept matches Some(last) ==> 0 <= last <= self.clock.elapsed
            && self.clock.previous is Some
    }

    /// Start at the beginning. A container whose clock may restart is never jumped
    /// through.
    pub fn new(spacing: Option<u64>, clock_may_restart: bool) -> (w: Walk)
        ensures
            w.is_valid(),
            is_fresh(w.clock),
            w.last_key is None,
            w.last_kept is None,
            !w.after_seek,
            !w.reads_everything,
            w.seeking_broken == clock_may_restart,
            w.errors == 0,
            w.spacing == spacing,
    {
        Walk {
            clock: Clock::new(),
            last_key: None,
            last_kept: None,
            after_seek: false,
            reads_everything: false,
            seeking_broken: clock_may_restart,
            errors: 0,
            spacing,
        }
    }

    /// A packet was read.
    pub fn on_read(&mut self)
        requires
            old(self).is_valid(),
        ensures
            *final(self) == (Walk { errors: 0, ..*old(self) }),
            final(self).is_valid(),
            is_recovery(*old(self), *final(self)),
    {
        self.errors = 0;
    }

    /// A read failed. Says whether the file is to be treated as finished: nothing is
    /// left of it, or too many reads in a row have failed.
    pub fn on_error(&mut self, spent: bool) -> (finished: bool)
        requires
            old(self).is_valid(),
        ensures
            final(self).is_valid(),
            *final(self) == (Walk {
                errors: if old(self).errors < u32::MAX {
                    (old(self).errors + 1) as u32
                } else {
                    u32::MAX
                },
                ..*old(self)
            }),
            finished <==> spent || final(self).errors >= MAX_CONSECUTIVE_DEMUX_ERRORS,
            is_stumble(*old(self), spent, *final(self), finished),
    {
        if self.errors < u32::MAX {
            self.errors = self.errors + 1;
        }
        spent || self.errors >= MAX_CONSECUTIVE_DEMUX_ERRORS
    }

    /// A packet of the video stream.
    pub fn on_packet(&mut self, key: bool, dts: Option<i64>, pts: Option<i64>) -> (step: Step)
        requires
            old(self).is_valid(),
        ensures
            is_step(*old(self), key, packet_time(dts, pts), *final(self), step),
            final(self).is_valid(),
    {
        if !key {
            self.reads_everything = true;
            return Step::Skip;
        }
        let ts: Option<i64> = match dts {
            Some(t) => Some(t),
            None => pts,
        };
        if self.after_seek {
            match (ts, self.last_key) {
                (Some(t), Some(last)) => {
                    if t <= last {
                        return Step::Skip;
                    }
                },
                _ => {},
            }
            self.after_seek = false;
        }
        let stamp: Option<i64> = match ts {
            Some(t) => {
                let now = self.clock.tick(t);
                if self.clock.restarted {
                    self.seeking_broken = true;
                }
                Some(now)
            },
            None => None,
        };
        let keep: bool = match (self.spacing, stamp, self.last_kept) {
            (Some(gap), Some(now), Some(last)) => (now - last) as u64 >= gap,
            _ => true,
        };
        match (self.spacing, stamp) {
            (Some(_), Some(_)) => {
                if keep {
                    self.last_kept = stamp;
                }
            },
            _ => {},
        }
        match ts {
            Some(t) => {
                self.last_key = Some(t);
            },
            None => {},
        }
        let mut seek: Option<i64> = None;
        if self.reads_everything && !self.seeking_broken {
            match ts {
                None => {
                    self.seeking_broken = true;
                },
                Some(t) => {
                    let step: u64 = match (self.spacing, stamp, self.last_kept) {
                        (Some(gap), Some(now), Some(last)) => {
                            let passed: u64 = (now - last) as u64;
                            if gap > passed && gap - passed > 1 {
                                gap - passed
                            } else {
                                1
                            }
                        },
                        _ => 1,
                    };
                    seek = Some(
                        if t as i128 + step as i128 <= i64::MAX as i128 {
                            (t as i128 + step as i128) as i64
                        } else {
                            i64::MAX
                        },
                    );
                },
            }
        }
        Step::Key { stamp, keep, seek }
    }

    /// A jump was made, or failed. Past the last keyframe it fails too, and the walk
    /// ends by reading.
    pub fn on_seek(&mut self, ok: bool)
        requires
            old(self).is_valid(),
        ensures
            final(self).is_valid(),
            ok ==> *final(self) == (Walk { after_seek: true, ..*old(self) }),
            !ok ==> *final(self) == (Walk { seeking_broken: true, ..*old(self) }),
            is_jump(*old(self), ok, *final(self)),
    {
        if ok {
            self.after_seek = true;
        } else {
            self.seeking_broken = true;
        }
    }
}

/// Read from end to end, every keyframe is met once: only a jump can make one be taken
/// for a repeat.
pub proof fn lemma_nothing_is_skipped_without_a_jump(
    before: Walk,
    ts: Option<i64>,
    after: Walk,
    step: Step,
)
    requires
        is_step(before, true, ts, after, step),
        !before.after_seek,
    ensures
        step is Key,
{
}

/// No keyframe is sampled twice: after a jump, one that is not past the last one met is
/// skipped.
pub proof fn lemma_no_keyframe_is_sampled_twice(
    before: Walk,
    t: i64,
    last: i64,
    after: Walk,
    step: Step,
)
    requires
        is_step(before, true, Some(t), after, step),
        before.after_seek,
        before.last_key == Some(last),
        step is Key,
    ensures
        t > last,
{
}

/// Samples that are thinned out lie at least the spacing apart.
pub proof fn lemma_samples_keep_their_distance(
    before: Walk,
    ts: Option<i64>,
    after: Walk,
    step: Step,
    gap: u64,
    last: i64,
    now: i64,
)
    requires
        is_step(before, true, ts, after, step),
        before.spacing == Some(gap),
        before.last_kept == Some(last),
        step matches Step::Key { stamp, keep, seek } && stamp == Some(now) && keep,
    ensures
        now - last >= gap,
        after.last_kept == Some(now),
{
}

/// A container whose clock was seen to restart is never jumped through again.
pub proof fn lemma_no_jumps_after_a_restart(before: Walk, ts: Option<i64>, after: Walk, step: Step)
    requires
        is_step(before, true, ts, after, step),
        before.is_valid(),
        step is Key,
    ensures
        after.clock.restarted ==> after.seeking_broken,
        after.clock.restarted ==> (step matches Step::Key { stamp, keep, seek } ==> seek is None),
{
}

} // verus!
