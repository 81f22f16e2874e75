//! What the timeline of a video promises: when its samples were taken, and which of them
//! stands for the picture at each moment.

use crate::fingerprint::VideoFingerprint;
use crate::ordering::{in_order, lemma_same_members, Precedence};
use crate::picture::{is_hash, is_thumbnail, Crop, FrameStack};
use crate::profile::{
    are_hashed, area, fingerprint_video, is_crop_of, is_fingerprint, is_hashed, is_thumb, Source,
    Spectrum,
};
use crate::quantity::Seconds;
use crate::sampling::{
    all_known, assemble, average_gap, changes_upto, holds, is_change, is_time_order, latest,
    milliseconds, reported_length, sample_times, samples_in, spread_over, stretches, stretches_upto,
    times_of, ByTime, Sample, Stretch, Timeline,
};
use vstd::prelude::*;

verus! {

/// Whether a length of time comes to this many whole milliseconds.
pub open spec fn lasts_ms(length: Seconds, ms: nat) -> bool {
    ms * length.den() <= length.num() * 1000 < (ms + 1) * length.den()
}

proof fn lemma_lasts_ms(length: Seconds, ms: nat)
    requires
        lasts_ms(length, ms),
        ms <= u32::MAX,
    ensures
        milliseconds(length) == ms,
{
    let (n, d, q) = ((length.num() * 1000) as int, length.den() as int, ms as int);
    assert(d > 0) by (nonlinear_arith)
        requires
            q * d <= n < (q + 1) * d,
            q >= 0,
            d >= 0,
    ;
    assert(q * d == d * q) by (nonlinear_arith);
    assert((q + 1) * d == q * d + d) by (nonlinear_arith);
    vstd::arithmetic::div_mod::lemma_fundamental_div_mod_converse(n, d, q, n - d * q);
}

/// Samples that all have a time were taken when the container says.
pub proof fn lemma_known_times_are_taken_as_they_are(
    times: &Vec<Option<u32>>,
    length: Seconds,
    out: (Vec<u32>, u32),
    i: int,
)
    requires
        call_ensures(sample_times, (times, length), out),
        forall|j: int| 0 <= j < times@.len() ==> #[trigger] times@[j] is Some,
        0 <= i < times@.len(),
    ensures
        out.0@.len() == times@.len(),
        times@[i] == Some(out.0@[i]),
{
    assert(all_known(times@));
}

/// Where one time is missing, the samples are spread evenly over the runtime: of `n`
/// samples, the one numbered `i` stands `i` parts of `n` into it. A runtime that is not
/// known counts as a millisecond for each sample.
pub proof fn lemma_unknown_times_are_spread_evenly(
    times: &Vec<Option<u32>>,
    length: Seconds,
    out: (Vec<u32>, u32),
    ms: nat,
    gap: int,
    i: int,
)
    requires
        call_ensures(sample_times, (times, length), out),
        times@.len() <= u32::MAX,
        lasts_ms(length, ms),
        ms <= u32::MAX,
        0 <= gap < times@.len(),
        times@[gap] is None,
        0 <= i < times@.len(),
    ensures
        out.0@.len() == times@.len(),
        ms > 0 ==> out.0@[i] * times@.len() <= i * ms < (out.0@[i] + 1) * times@.len(),
        ms == 0 ==> out.0@[i] == i,
        ms > 0 ==> out.1 == ms,
        ms == 0 ==> out.1 == times@.len(),
{
    lemma_lasts_ms(length, ms);
    assert(!all_known(times@));
    let n = times@.len() as int;
    let over = spread_over(times@.len(), length) as int;
    let list = times_of(times@, length);
    assert forall|k: int| 0 <= k < n implies (#[trigger] list[k]) * n <= k * over < (list[k] + 1)
        * n && list[k] < over by {
        let q = (k * over) / n;
        vstd::arithmetic::div_mod::lemma_fundamental_div_mod(k * over, n);
        vstd::arithmetic::div_mod::lemma_mod_bound(k * over, n);
        assert(0 <= q < over) by (nonlinear_arith)
            requires
                k * over == n * q + (k * over) % n,
                0 <= (k * over) % n < n,
                0 <= k < n,
                over > 0,
        ;
        assert(q * n <= k * over < (q + 1) * n) by (nonlinear_arith)
            requires
                k * over == n * q + (k * over) % n,
                0 <= (k * over) % n < n,
        ;
        assert(list[k] == q as u32);
    }
    assert(list[i] * n <= i * over < (list[i] + 1) * n);
    if ms == 0 {
        let q = list[i] as int;
        assert(q == i) by (nonlinear_arith)
            requires
                q * n <= i * n < (q + 1) * n,
                n > 0,
        ;
    }
    lemma_latest_is_below(list, over);
}

proof fn lemma_latest_is_below(times: Seq<u32>, bound: int)
    requires
        forall|k: int| 0 <= k < times.len() ==> #[trigger] times[k] < bound,
        bound > 0,
    ensures
        latest(times) < bound,
    decreases times.len(),
{
    if times.len() > 0 {
        assert forall|k: int| 0 <= k < times.drop_last().len() implies #[trigger] times.drop_last()[
        k] < bound by {
            assert(times[k] < bound);
        }
        lemma_latest_is_below(times.drop_last(), bound);
        assert(times[times.len() - 1] < bound);
    }
}

proof fn lemma_latest_is_one(times: Seq<u32>, last: int)
    requires
        0 <= last < times.len(),
        forall|k: int| 0 <= k < times.len() ==> #[trigger] times[k] <= times[last],
    ensures
        latest(times) == times[last],
    decreases times.len(),
{
    let less = times.drop_last();
    if last < times.len() - 1 {
        assert forall|k: int| 0 <= k < less.len() implies #[trigger] less[k] <= less[last] by {
            assert(times[k] <= times[last]);
        }
        lemma_latest_is_one(less, last);
        assert(times[times.len() - 1] <= times[last]);
    } else if times[last] > 0 {
        assert forall|k: int| 0 <= k < less.len() implies #[trigger] less[k] < times[last] + 1 by {
            assert(times[k] <= times[last]);
        }
        lemma_latest_is_below(less, times[last] + 1);
    } else {
        assert forall|k: int| 0 <= k < less.len() implies #[trigger] less[k] < 1 by {
            assert(times[k] <= times[last]);
        }
        lemma_latest_is_below(less, 1);
    }
}

/// Timed samples are measured against the runtime that the container states, where the
/// latest of them lies before its end. Else the runtime is what lies between two samples
/// on average, and a millisecond at least, past the latest of them.
pub proof fn lemma_the_runtime_reaches_past_the_last_sample(
    times: &Vec<Option<u32>>,
    length: Seconds,
    out: (Vec<u32>, u32),
    ms: nat,
    last: int,
)
    requires
        call_ensures(sample_times, (times, length), out),
        forall|j: int| 0 <= j < times@.len() ==> #[trigger] times@[j] is Some,
        lasts_ms(length, ms),
        ms <= u32::MAX,
        0 <= last < times@.len(),
        forall|j: int| 0 <= j < times@.len() ==> (#[trigger] times@[j])->0 <= times@[last]->0,
    ensures
        ms > times@[last]->0 ==> out.1 == ms,
        ms <= times@[last]->0 ==> {
            let t = (times@[last]->0) as int;
            let step = out.1 - t;
            let gaps = if times@.len() == 1 {
                1
            } else {
                times@.len() - 1
            };
            out.1 < u32::MAX ==> step >= 1 && (step > 1 ==> step * gaps <= t) && t < (step + 1)
                * gaps
        },
        ms <= times@[last]->0 ==> out.1 >= times@[last]->0,
{
    lemma_lasts_ms(length, ms);
    assert(all_known(times@));
    let list = times_of(times@, length);
    assert forall|k: int| 0 <= k < list.len() implies #[trigger] list[k] <= list[last] by {
        assert(times@[k]->0 <= times@[last]->0);
    }
    lemma_latest_is_one(list, last);
    let t = (times@[last]->0) as int;
    if ms <= t {
        let n = times@.len();
        let gaps: int = if n <= 2 {
            1
        } else {
            n - 1
        };
        let gap = t / gaps;
        assert(average_gap(n, t as nat) == gap);
        vstd::arithmetic::div_mod::lemma_fundamental_div_mod(t, gaps);
        vstd::arithmetic::div_mod::lemma_mod_bound(t, gaps);
        let step = if gap > 1 {
            gap
        } else {
            1
        };
        assert(gap * gaps <= t < (gap + 1) * gaps) by (nonlinear_arith)
            requires
                t == gaps * gap + t % gaps,
                0 <= t % gaps < gaps,
        ;
        assert((gap + 1) * gaps <= (step + 1) * gaps) by (nonlinear_arith)
            requires
                gap <= step,
                gaps > 0,
        ;
    }
}

/// The runtime to report is the stated one, unless the clock was seen to restart and the
/// samples reach past it. Then it is what the samples say, so that none lies past it.
pub proof fn lemma_a_restart_can_only_lengthen_the_runtime(
    length: Seconds,
    restarted: bool,
    total_ms: u32,
    out: Seconds,
)
    requires
        call_ensures(reported_length, (length, restarted, total_ms), out),
    ensures
        !restarted ==> out.num() == length.num() && out.den() == length.den(),
        restarted ==> total_ms * out.den() <= out.num() * 1000,
        restarted && total_ms * length.den() <= length.num() * 1000 ==> out.num() == length.num()
            && out.den() == length.den(),
        restarted && total_ms * length.den() > length.num() * 1000 ==> out.num() * 1000 == total_ms
            * out.den(),
{
}

/// Whether a sample is the one that was taken last up to a moment: of those taken at the
/// same time, the one that came last.
pub open spec fn is_current(times: Seq<u32>, k: int, moment: int) -> bool {
    &&& 0 <= k < times.len()
    &&& times[k] <= moment
    &&& forall|j: int|
        0 <= j < times.len() && #[trigger] times[j] <= moment ==> times[j] < times[k] || (times[j]
            == times[k] && j <= k)
}

/// Whether a stretch of a timeline covers a moment.
pub open spec fn covers(line: Timeline, i: int, moment: int) -> bool {
    0 <= i < line.hashes@.len() && line.t_start@[i] <= moment < line.t_end@[i]
}

spec fn in_time(samples: Seq<Sample>) -> bool {
    forall|i: int, j: int|
        0 <= i < j < samples.len() ==> (#[trigger] samples[i]).time <= (#[trigger] samples[j]).time
}

/// The last of the changes up to a sample looks like that sample, and changes past it
/// come no sooner than the next sample.
proof fn lemma_the_last_change(samples: Seq<Sample>, p: int, n: int)
    requires
        in_time(samples),
        0 <= p < n <= samples.len(),
    ensures
        ({
            let some = changes_upto(samples, p + 1);
            let all = changes_upto(samples, n);
            &&& 0 < some.len() <= all.len()
            &&& all[some.len() - 1].hash == samples[p].hash
            &&& all[some.len() - 1].valid == samples[p].valid
            &&& all[some.len() - 1].time <= samples[p].time
            &&& forall|i: int| 0 <= i < some.len() ==> #[trigger] some[i] == all[i]
            &&& forall|i: int|
                some.len() <= i < all.len() ==> (#[trigger] all[i]).time >= samples[p + 1].time
        }),
    decreases n,
{
    let some = changes_upto(samples, p + 1);
    let all = changes_upto(samples, n);
    if n == p + 1 {
        if !is_change(samples, p) {
            lemma_the_last_change(samples, p - 1, p);
            assert(changes_upto(samples, p) == some);
            assert(samples[p - 1].time <= samples[p].time);
        }
    } else {
        lemma_the_last_change(samples, p, n - 1);
        let less = changes_upto(samples, n - 1);
        assert forall|i: int| some.len() <= i < all.len() implies (#[trigger] all[i]).time
            >= samples[p + 1].time by {
            if i < less.len() {
                assert(all[i] == less[i]);
            } else {
                assert(all[i] == samples[n - 1]);
                if p + 1 < n - 1 {
                    assert(samples[p + 1].time <= samples[n - 1].time);
                }
            }
        }
        assert(all[some.len() - 1] == less[some.len() - 1]);
        assert forall|i: int| 0 <= i < some.len() implies #[trigger] some[i] == all[i] by {
            assert(some[i] == less[i]);
        }
    }
}

proof fn lemma_changes_in_time(samples: Seq<Sample>, n: int)
    requires
        in_time(samples),
        0 <= n <= samples.len(),
    ensures
        in_time(changes_upto(samples, n)),
        forall|i: int|
            0 <= i < changes_upto(samples, n).len() && n > 0 ==> (#[trigger] changes_upto(
                samples,
                n,
            )[i]).time <= samples[n - 1].time,
    decreases n,
{
    if n > 0 {
        lemma_changes_in_time(samples, n - 1);
        let less = changes_upto(samples, n - 1);
        let all = changes_upto(samples, n);
        assert forall|i: int| 0 <= i < all.len() implies (#[trigger] all[i]).time <= samples[n
            - 1].time by {
            if i < less.len() {
                assert(all[i] == less[i]);
                assert(samples[n - 2].time <= samples[n - 1].time);
            }
        }
        assert forall|i: int, j: int| 0 <= i < j < all.len() implies (#[trigger] all[i]).time <= (
        #[trigger] all[j]).time by {
            assert(all[i] == less[i]);
            if j < less.len() {
                assert(all[j] == less[j]);
            } else {
                assert(samples[n - 2].time <= samples[n - 1].time);
            }
        }
    }
}

/// Every stretch is one of the changes, and every change with something to see is a
/// stretch.
proof fn lemma_stretches_are_changes(changes: Seq<Sample>, total: u32, n: int)
    requires
        0 <= n <= changes.len(),
    ensures
        forall|i: int|
            0 <= i < stretches_upto(changes, total, n).len() ==> comes_from(
                changes,
                total,
                n,
                #[trigger] stretches_upto(changes, total, n)[i],
            ),
        forall|q: int|
            0 <= q < n && (#[trigger] changes[q]).valid ==> comes_to(
                changes,
                total,
                q,
                stretches_upto(changes, total, n),
            ),
    decreases n,
{
    if n > 0 {
        lemma_stretches_are_changes(changes, total, n - 1);
        let less = stretches_upto(changes, total, n - 1);
        let all = stretches_upto(changes, total, n);
        assert forall|i: int| 0 <= i < all.len() implies comes_from(
            changes,
            total,
            n,
            #[trigger] all[i],
        ) by {
            if i < less.len() {
                assert(all[i] == less[i]);
                assert(comes_from(changes, total, n - 1, less[i]));
            } else {
                assert(is_stretch_of(changes, total, n - 1, all[i]));
            }
        }
        assert forall|q: int| 0 <= q < n && (#[trigger] changes[q]).valid implies comes_to(
            changes,
            total,
            q,
            all,
        ) by {
            if q < n - 1 {
                assert(comes_to(changes, total, q, less));
                let i = choose|i: int|
                    0 <= i < less.len() && is_stretch_of(changes, total, q, #[trigger] less[i]);
                assert(all[i] == less[i]);
            } else {
                assert(is_stretch_of(changes, total, n - 1, all[less.len() as int]));
            }
        }
    }
}

/// Whether a stretch is one of the first `n` changes.
spec fn comes_from(changes: Seq<Sample>, total: u32, n: int, s: Stretch) -> bool {
    exists|q: int| 0 <= q < n && #[trigger] is_stretch_of(changes, total, q, s)
}

/// Whether a change is one of some stretches.
spec fn comes_to(changes: Seq<Sample>, total: u32, q: int, list: Seq<Stretch>) -> bool {
    exists|i: int| 0 <= i < list.len() && is_stretch_of(changes, total, q, #[trigger] list[i])
}

/// Whether one stretch is an earlier one of the first `n` changes than another.
spec fn come_in_turn(changes: Seq<Sample>, total: u32, n: int, s: Stretch, t: Stretch) -> bool {
    exists|q: int, r: int|
        0 <= q < r < n && #[trigger] is_stretch_of(changes, total, q, s)
            && #[trigger] is_stretch_of(changes, total, r, t)
}

spec fn is_stretch_of(changes: Seq<Sample>, total: u32, q: int, s: Stretch) -> bool {
    &&& changes[q].valid
    &&& s.hash == changes[q].hash
    &&& s.start == changes[q].time
    &&& s.end == if q + 1 < changes.len() {
        changes[q + 1].time
    } else {
        total
    }
}

proof fn lemma_the_last_sample_stands(
    order: Seq<usize>,
    hashes: Seq<u64>,
    flat: Seq<bool>,
    times: &Vec<u32>,
    total: u32,
    line: Timeline,
    k: int,
    moment: int,
)
    requires
        is_time_order(order, times),
        holds(line, stretches(samples_in(order, hashes, flat, times@), total)),
        hashes.len() == times@.len(),
        flat.len() == times@.len(),
        is_current(times@, k, moment),
        moment < total,
    ensures
        !flat[k] ==> exists|i: int| #[trigger] covers(line, i, moment) && line.hashes@[i]
            == hashes[k],
        flat[k] ==> forall|i: int| !#[trigger] covers(line, i, moment),
        forall|i: int| #[trigger] covers(line, i, moment) ==> line.hashes@[i] == hashes[k],
{
    let samples = samples_in(order, hashes, flat, times@);
    let all = Seq::new(times@.len(), |i: int| i as usize);
    lemma_same_members(order, all);
    let by_time = ByTime { times };
    assert(in_order(order, &by_time));
    assert forall|i: int| 0 <= i < order.len() implies #[trigger] order[i] < times@.len() by {
        assert(order.contains(order[i]));
        assert(all.contains(order[i]));
    }
    assert(in_time(samples)) by {
        assert forall|i: int, j: int| 0 <= i < j < samples.len() implies (
        #[trigger] samples[i]).time <= (#[trigger] samples[j]).time by {
            assert(by_time.le(order[i], order[j]));
        }
    }
    assert(times.len() == times@.len());
    assert(all[k] == k as usize);
    assert(all.contains(k as usize));
    assert(order.contains(k as usize));
    let p = choose|p: int| 0 <= p < order.len() && order[p] == k as usize;
    let n = samples.len() as int;
    lemma_the_last_change(samples, p, n);
    lemma_changes_in_time(samples, n);
    let changes = changes_upto(samples, n);
    let m = changes_upto(samples, p + 1).len() - 1;
    let list = stretches(samples, total);
    if p + 1 < n {
        assert(by_time.le(order[p], order[p + 1]));
        assert(order.no_duplicates());
        let j = order[p + 1] as int;
        assert(order[p + 1] != order[p]);
        assert(samples[p + 1].time > moment) by {
            if times@[j] <= moment {
                assert(times@[j] < times@[k] || (times@[j] == times@[k] && j <= k));
            }
        }
    }
    lemma_one_change_covers(changes, total, m, list, moment);
    if !flat[k] {
        let i = choose|i: int|
            0 <= i < list.len() && #[trigger] list[i].start <= moment < list[i].end
                && list[i].hash == changes[m].hash;
        assert(covers(line, i, moment));
    }
    assert forall|i: int| #[trigger] covers(line, i, moment) implies line.hashes@[i] == hashes[k]
        && !flat[k] by {
        assert(list[i].start <= moment < list[i].end);
    }
}

/// At every moment of a video the picture is the last sample taken up to then: its hash
/// stands there, where there is something to see in it, and else nothing does. The order
/// in which the samples came makes no difference but among those of one time.
pub proof fn lemma_the_last_sample_stands_for_the_picture(
    hashes: &Vec<u64>,
    flat: &Vec<bool>,
    times: &Vec<u32>,
    total: u32,
    line: Timeline,
    k: int,
    moment: int,
)
    requires
        call_ensures(assemble, (hashes, flat, times, total), line),
        hashes@.len() == times@.len(),
        flat@.len() == times@.len(),
        is_current(times@, k, moment),
        moment < total,
    ensures
        !flat@[k] ==> exists|i: int| #[trigger] covers(line, i, moment) && line.hashes@[i]
            == hashes@[k],
        flat@[k] ==> forall|i: int| !#[trigger] covers(line, i, moment),
        forall|i: int| #[trigger] covers(line, i, moment) ==> line.hashes@[i] == hashes@[k],
{
    let order = choose|order: Seq<usize>|
        #[trigger] is_time_order(order, times) && holds(
            line,
            stretches(samples_in(order, hashes@, flat@, times@), total),
        );
    lemma_the_last_sample_stands(order, hashes@, flat@, times, total, line, k, moment);
}

/// Whether at a moment a fingerprint shows a frame of the video: the frame's crop was
/// shrunk, and transformed with as many pixels as the crop holds; and where that found
/// anything to see, the hash of what it found stands there, and else nothing does.
pub open spec fn is_shown<T: Fn(&Vec<u32>, u32) -> Spectrum>(
    stack: &FrameStack,
    transform: &T,
    fp: &VideoFingerprint,
    k: int,
    moment: int,
    c: Crop,
    thumb: Vec<u32>,
    pixels: u32,
    s: Spectrum,
) -> bool {
    let line = Timeline {
        hashes: fp.valid_hashes,
        t_start: fp.valid_t_start,
        t_end: fp.valid_t_end,
    };
    &&& is_crop_of(stack, c)
    &&& is_thumbnail(stack.frames@[k]@, c, thumb@)
    &&& pixels == (c.bottom - c.top + 1) * (c.right - c.left + 1)
    &&& transform.ensures((&thumb, pixels), s)
    &&& s.featureless ==> forall|i: int| !#[trigger] covers(line, i, moment)
    &&& !s.featureless ==> exists|i: int| #[trigger]
        covers(line, i, moment) && is_hash(s.order@, fp.valid_hashes@[i])
}

/// At every moment a fingerprint shows the last frame kept up to then.
pub proof fn lemma_a_fingerprint_shows_the_last_frame<T: Fn(&Vec<u32>, u32) -> Spectrum>(
    source: Source,
    stack: &FrameStack,
    restarted: bool,
    transform: &T,
    fp: Option<VideoFingerprint>,
    out: (Vec<u32>, u32),
    k: int,
    moment: int,
)
    requires
        call_ensures(fingerprint_video::<T>, (source, stack, restarted, transform), fp),
        stack.is_valid(),
        stack.frames@.len() > 0,
        call_ensures(sample_times, (&stack.times, source.duration), out),
        is_current(out.0@, k, moment),
        moment < out.1,
    ensures
        fp is Some,
        fp->0.total_ms == out.1,
        exists|c: Crop, thumb: Vec<u32>, pixels: u32, s: Spectrum| #[trigger]
            is_shown(stack, transform, &fp->0, k, moment, c, thumb, pixels, s),
{
    let f = fp->0;
    let (c, hashes, flat) = choose|c: Crop, hashes: Seq<u64>, flat: Seq<bool>|
        is_crop_of(stack, c) && #[trigger] are_hashed(
            transform,
            stack.frames@,
            c,
            hashes,
            flat,
        ) && is_fingerprint(source, stack.times@, restarted, hashes, flat, &f);
    let line = Timeline { hashes: f.valid_hashes, t_start: f.valid_t_start, t_end: f.valid_t_end };
    let times = times_of(stack.times@, source.duration);
    let (list, order) = choose|list: Vec<u32>, order: Seq<usize>|
        list@ == times && #[trigger] is_time_order(order, &list) && holds(
            line,
            stretches(samples_in(order, hashes, flat, times), f.total_ms),
        );
    assert(times.len() == stack.times@.len());
    lemma_the_last_sample_stands(order, hashes, flat, &list, f.total_ms, line, k, moment);
    assert(is_hashed(transform, stack.frames@[k]@, c, hashes[k], flat[k]));
    let (thumb, pixels, s) = choose|thumb: Vec<u32>, pixels: u32, s: Spectrum|
        is_thumb(stack.frames@[k]@, c, thumb@) && pixels == area(c) && #[trigger] transform.ensures(
            (&thumb, pixels),
            s,
        ) && is_hash(s.order@, hashes[k]) && flat[k] == s.featureless;
    assert(is_shown(stack, transform, &f, k, moment, c, thumb, pixels, s));
}

/// The stretches that cover a moment are those of the change that came last.
proof fn lemma_one_change_covers(
    changes: Seq<Sample>,
    total: u32,
    m: int,
    list: Seq<Stretch>,
    moment: int,
)
    requires
        in_time(changes),
        list == stretches_upto(changes, total, changes.len() as int),
        0 <= m < changes.len(),
        changes[m].time <= moment < total,
        m + 1 < changes.len() ==> moment < changes[m + 1].time,
    ensures
        changes[m].valid ==> exists|i: int|
            0 <= i < list.len() && #[trigger] list[i].start <= moment < list[i].end
                && list[i].hash == changes[m].hash,
        forall|i: int|
            0 <= i < list.len() && #[trigger] list[i].start <= moment < list[i].end
                ==> changes[m].valid && list[i].hash == changes[m].hash,
{
    lemma_stretches_are_changes(changes, total, changes.len() as int);
    if changes[m].valid {
        assert(comes_to(changes, total, m, list));
        let i = choose|i: int|
            0 <= i < list.len() && is_stretch_of(changes, total, m, #[trigger] list[i]);
        assert(list[i].start <= moment < list[i].end);
    }
    assert forall|i: int|
        0 <= i < list.len() && #[trigger] list[i].start <= moment < list[i].end implies changes[m].valid
        && list[i].hash == changes[m].hash by {
        assert(comes_from(changes, total, changes.len() as int, list[i]));
        let q = choose|q: int|
            0 <= q < changes.len() && #[trigger] is_stretch_of(changes, total, q, list[i]);
        if q < m {
            if q + 1 < m {
                assert(changes[q + 1].time <= changes[m].time);
            }
        } else if q > m {
            if m + 1 < q {
                assert(changes[m + 1].time <= changes[q].time);
            }
        }
    }
}

/// Stretches that follow on one another show different pictures, where no two samples
/// were taken at one time: a sample that repeats the one before it starts no stretch.
pub proof fn lemma_a_repeated_sample_starts_nothing(
    hashes: &Vec<u64>,
    flat: &Vec<bool>,
    times: &Vec<u32>,
    total: u32,
    line: Timeline,
    i: int,
)
    requires
        call_ensures(assemble, (hashes, flat, times, total), line),
        hashes@.len() == times@.len(),
        flat@.len() == times@.len(),
        times@.no_duplicates(),
        0 <= i < line.hashes@.len() - 1,
        line.t_end@[i] == line.t_start@[i + 1],
    ensures
        line.hashes@[i] != line.hashes@[i + 1],
{
    let order = choose|order: Seq<usize>|
        #[trigger] is_time_order(order, times) && holds(
            line,
            stretches(samples_in(order, hashes@, flat@, times@), total),
        );
    let samples = samples_in(order, hashes@, flat@, times@);
    let all = Seq::new(times@.len(), |i: int| i as usize);
    assert(times.len() == times@.len());
    lemma_same_members(order, all);
    let by_time = ByTime { times };
    assert(in_order(order, &by_time));
    assert forall|i: int| 0 <= i < order.len() implies #[trigger] order[i] < times@.len() by {
        assert(order.contains(order[i]));
        assert(all.contains(order[i]));
    }
    assert(all.no_duplicates());
    assert forall|i: int, j: int| 0 <= i < j < samples.len() implies (#[trigger] samples[i]).time
        < (#[trigger] samples[j]).time by {
        assert(by_time.le(order[i], order[j]));
        assert(order[i] != order[j]);
        assert(times@[order[i] as int] != times@[order[j] as int]);
    }
    let n = samples.len() as int;
    let changes = changes_upto(samples, n);
    lemma_changes_differ(samples, n);
    lemma_stretches_ascend(changes, total, changes.len() as int);
    let list = stretches(samples, total);
    assert(list[i].hash == line.hashes@[i] && list[i + 1].hash == line.hashes@[i + 1]);
    assert(come_in_turn(changes, total, changes.len() as int, list[i], list[i + 1]));
    let (q, r) = choose|q: int, r: int|
        0 <= q < r < changes.len() && #[trigger] is_stretch_of(changes, total, q, list[i])
            && #[trigger] is_stretch_of(changes, total, r, list[i + 1]);
    if q + 1 < r {
        assert(changes[q + 1].time < changes[r].time);
    }
    assert(r == q + 1);
}

proof fn lemma_changes_differ(samples: Seq<Sample>, n: int)
    requires
        forall|i: int, j: int|
            0 <= i < j < samples.len() ==> (#[trigger] samples[i]).time < (
            #[trigger] samples[j]).time,
        0 <= n <= samples.len(),
    ensures
        ({
            let all = changes_upto(samples, n);
            &&& forall|i: int, j: int|
                0 <= i < j < all.len() ==> (#[trigger] all[i]).time < (#[trigger] all[j]).time
            &&& forall|i: int|
                0 <= i < all.len() ==> n > 0 && (#[trigger] all[i]).time <= samples[n - 1].time
            &&& forall|i: int, j: int|
                0 <= i && j == i + 1 && j < all.len() ==> (#[trigger] all[i]).hash != (
                #[trigger] all[j]).hash || all[i].valid != all[j].valid
            &&& n > 0 ==> all.len() > 0 && all.last().hash == samples[n - 1].hash
                && all.last().valid == samples[n - 1].valid
        }),
    decreases n,
{
    if n > 0 {
        lemma_changes_differ(samples, n - 1);
        let less = changes_upto(samples, n - 1);
        let all = changes_upto(samples, n);
        if n > 1 {
            assert(samples[n - 2].time < samples[n - 1].time);
        }
        assert forall|i: int| 0 <= i < all.len() implies n > 0 && (#[trigger] all[i]).time
            <= samples[n - 1].time by {
            if i < less.len() {
                assert(all[i] == less[i]);
            }
        }
        assert forall|i: int, j: int| 0 <= i < j < all.len() implies (#[trigger] all[i]).time < (
        #[trigger] all[j]).time by {
            assert(all[i] == less[i]);
            if j < less.len() {
                assert(all[j] == less[j]);
            }
        }
        assert forall|i: int, j: int| 0 <= i && j == i + 1 && j < all.len() implies (
        #[trigger] all[i]).hash != (#[trigger] all[j]).hash || all[i].valid != all[j].valid by {
            assert(all[i] == less[i]);
            if j < less.len() {
                assert(all[j] == less[j]);
            }
        }
    }
}

/// Stretches stand in the order of their changes.
proof fn lemma_stretches_ascend(changes: Seq<Sample>, total: u32, n: int)
    requires
        0 <= n <= changes.len(),
    ensures
        forall|i: int, j: int|
            0 <= i < j < stretches_upto(changes, total, n).len() ==> come_in_turn(
                changes,
                total,
                n,
                #[trigger] stretches_upto(changes, total, n)[i],
                #[trigger] stretches_upto(changes, total, n)[j],
            ),
    decreases n,
{
    if n > 0 {
        lemma_stretches_ascend(changes, total, n - 1);
        lemma_stretches_are_changes(changes, total, n - 1);
        let less = stretches_upto(changes, total, n - 1);
        let all = stretches_upto(changes, total, n);
        assert forall|i: int, j: int| 0 <= i < j < all.len() implies come_in_turn(
            changes,
            total,
            n,
            #[trigger] all[i],
            #[trigger] all[j],
        ) by {
            assert(all[i] == less[i]);
            if j < less.len() {
                assert(all[j] == less[j]);
                assert(come_in_turn(changes, total, n - 1, less[i], less[j]));
            } else {
                assert(comes_from(changes, total, n - 1, less[i]));
                assert(is_stretch_of(changes, total, n - 1, all[j]));
            }
        }
    }
}

} // verus!
