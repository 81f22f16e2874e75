//! When each sample of a video was taken, and how long it stands for the picture.

use crate::figures::is_in_sequence;
use crate::fingerprint::VideoFingerprint;
use crate::frames::is_timed;
use crate::ordering::{in_order, lemma_same_members, sorted, Precedence};
use crate::quantity::Seconds;
use vstd::prelude::*;

verus! {

/// Whole milliseconds of a length of time, as far as they fit.
pub open spec fn milliseconds(length: Seconds) -> nat {
    let ms = (length.num() * 1000) / length.den();
    if ms <= u32::MAX {
        ms
    } else {
        u32::MAX as nat
    }
}

/// Whether every sample has a time.
pub open spec fn all_known(times: Seq<Option<u32>>) -> bool {
    forall|i: int| 0 <= i < times.len() ==> #[trigger] times[i] is Some
}

/// What the samples are spread over where their times are unknown: the runtime, or a
/// millisecond each where that is unknown too.
pub open spec fn spread_over(n: nat, length: Seconds) -> nat {
    if milliseconds(length) == 0 {
        n
    } else {
        milliseconds(length)
    }
}

/// When each sample was taken: as the container says, or evenly spread where it does
/// not say so for every sample.
pub open spec fn times_of(times: Seq<Option<u32>>, length: Seconds) -> Seq<u32> {
    if all_known(times) {
        Seq::new(times.len(), |i: int| times[i]->0)
    } else {
        Seq::new(
            times.len(),
            |i: int| ((i * spread_over(times.len(), length)) / times.len() as int) as u32,
        )
    }
}

/// The latest of some times, zero where there are none.
pub open spec fn latest(times: Seq<u32>) -> nat
    decreases times.len(),
{
    if times.len() == 0 {
        0
    } else {
        let before = latest(times.drop_last());
        if times.last() > before {
            times.last() as nat
        } else {
            before
        }
    }
}

/// The average gap between some samples, the last of them taken at `last`.
pub open spec fn average_gap(n: nat, last: nat) -> nat {
    let gaps = if n <= 2 {
        1
    } else {
        (n - 1) as nat
    };
    last / gaps
}

/// The runtime the samples are measured against: what the container says, unless the
/// last sample lies at its end or past it. Then one average gap more than that.
pub open spec fn runtime_of(times: Seq<Option<u32>>, length: Seconds) -> nat {
    let list = times_of(times, length);
    let last = latest(list);
    let stated = if all_known(times) {
        milliseconds(length)
    } else {
        spread_over(times.len(), length)
    };
    if stated <= last {
        let gap = average_gap(times.len(), last);
        let total = last + if gap > 1 {
            gap
        } else {
            1
        };
        if total <= u32::MAX {
            total
        } else {
            u32::MAX as nat
        }
    } else {
        stated
    }
}

/// The times where every one of them is known.
fn known_times(times: &Vec<Option<u32>>) -> (out: Option<Vec<u32>>)
    ensures
        out is Some <==> all_known(times@),
        out matches Some(list) ==> list@ == Seq::new(times@.len(), |i: int| times@[i]->0),
{
    let mut list: Vec<u32> = Vec::new();
    for i in 0..times.len()
        invariant
            list@ == Seq::new(i as nat, |j: int| times@[j]->0),
            forall|j: int| 0 <= j < i ==> #[trigger] times@[j] is Some,
    {
        match times[i] {
            Some(t) => {
                list.push(t);
                assert(list@ =~= Seq::new((i + 1) as nat, |j: int| times@[j]->0));
            },
            None => {
                return None;
            },
        }
    }
    Some(list)
}

/// When each sample was taken, and the runtime they are measured against.
///
/// Where even one time is missing, all samples are spread evenly: a video timed by
/// halves would weigh its timed part against a guess about the rest.
pub fn sample_times(times: &Vec<Option<u32>>, length: Seconds) -> (out: (Vec<u32>, u32))
    requires
        times@.len() <= u32::MAX,
    ensures
        out.0@ == times_of(times@, length),
        out.1 == runtime_of(times@, length),
{
    let n = times.len();
    let mut total: u32 = length.whole_ms();
    let list: Vec<u32> = match known_times(times) {
        Some(list) => list,
        None => {
            if total == 0 {
                total = n as u32;
            }
            let mut list: Vec<u32> = Vec::new();
            for i in 0..n
                invariant
                    n == times@.len(),
                    n <= u32::MAX,
                    total == spread_over(n as nat, length),
                    list@.len() == i,
                    forall|j: int| 0 <= j < i ==> #[trigger] list@[j] == (j * total) / (n as int),
            {
                proof {
                    assert(i * total <= 0xffff_ffff * 0xffff_ffff) by (nonlinear_arith)
                        requires
                            i <= 0xffff_ffff,
                            total <= 0xffff_ffff,
                    ;
                    assert((i * total) / (n as int) <= total) by (nonlinear_arith)
                        requires
                            0 <= i < n,
                            0 <= total,
                    ;
                }
                let whole: u64 = i as u64 * total as u64;
                list.push((whole / n as u64) as u32);
            }
            assert(list@ =~= times_of(times@, length));
            list
        },
    };
    let mut last: u32 = 0;
    assert(list@.take(0) =~= Seq::<u32>::empty());
    for i in 0..list.len()
        invariant
            last == latest(list@.take(i as int)),
    {
        assert(list@.take(i + 1).drop_last() =~= list@.take(i as int));
        if list[i] > last {
            last = list[i];
        }
    }
    assert(list@.take(list@.len() as int) =~= list@);
    if total <= last {
        let gaps: u32 = if n <= 2 {
            1
        } else {
            (n - 1) as u32
        };
        let gap: u32 = last / gaps;
        let step: u32 = if gap > 1 {
            gap
        } else {
            1
        };
        total = if last <= u32::MAX - step {
            last + step
        } else {
            u32::MAX
        };
    }
    (list, total)
}

proof fn lemma_latest(times: Seq<u32>, i: int)
    requires
        0 <= i < times.len(),
    ensures
        times[i] <= latest(times),
    decreases times.len(),
{
    if i < times.len() - 1 {
        lemma_latest(times.drop_last(), i);
        assert(times.drop_last()[i] == times[i]);
    }
}

/// No sample lies past the runtime it is measured against, and that runtime is never
/// below what the container says.
pub proof fn lemma_the_runtime_holds_every_sample(times: Seq<Option<u32>>, length: Seconds, i: int)
    requires
        0 <= i < times.len(),
    ensures
        times_of(times, length)[i] <= runtime_of(times, length),
        milliseconds(length) <= runtime_of(times, length),
        runtime_of(times, length) > 0,
{
    lemma_latest(times_of(times, length), i);
    let list = times_of(times, length);
    assert(latest(list) <= u32::MAX) by {
        lemma_latest_fits(list);
    }
}

proof fn lemma_latest_fits(times: Seq<u32>)
    ensures
        latest(times) <= u32::MAX,
    decreases times.len(),
{
    if times.len() > 0 {
        lemma_latest_fits(times.drop_last());
    }
}

/// Samples by time, and by the order they came in among those of the same time.
pub struct ByTime<'a> {
    pub times: &'a Vec<u32>,
}

impl<'a> Precedence<usize> for ByTime<'a> {
    open spec fn le(&self, a: usize, b: usize) -> bool {
        self.times@[a as int] < self.times@[b as int] || (self.times@[a as int]
            == self.times@[b as int] && a <= b)
    }

    open spec fn knows(&self, a: usize) -> bool {
        a < self.times@.len()
    }

    proof fn le_is_total(&self, a: usize, b: usize) {
    }

    proof fn le_is_transitive(&self, a: usize, b: usize, c: usize) {
    }

    fn precedes(&self, a: &usize, b: &usize) -> (yes: bool) {
        let x = self.times[*a];
        let y = self.times[*b];
        x < y || (x == y && *a <= *b)
    }
}

/// Every sample once, in order of time.
pub open spec fn is_time_order(order: Seq<usize>, times: &Vec<u32>) -> bool {
    &&& order.to_multiset() == Seq::new(times@.len(), |i: int| i as usize).to_multiset()
    &&& in_order(order, &ByTime { times })
}

/// One sample: its hash, its time, and whether there is anything to see in it.
pub struct Sample {
    pub hash: u64,
    pub time: u32,
    pub valid: bool,
}

/// The samples in order.
pub open spec fn samples_in(
    order: Seq<usize>,
    hashes: Seq<u64>,
    flat: Seq<bool>,
    times: Seq<u32>,
) -> Seq<Sample> {
    Seq::new(
        order.len(),
        |k: int|
            Sample {
                hash: hashes[order[k] as int],
                time: times[order[k] as int],
                valid: !flat[order[k] as int],
            },
    )
}

/// Whether a sample differs from the one before it.
pub open spec fn is_change(samples: Seq<Sample>, k: int) -> bool {
    k == 0 || samples[k].hash != samples[k - 1].hash || samples[k].valid != samples[k - 1].valid
}

/// The samples that differ from the one before, among the first `n`.
pub open spec fn changes_upto(samples: Seq<Sample>, n: int) -> Seq<Sample>
    decreases n,
{
    if n <= 0 {
        Seq::empty()
    } else {
        let less = changes_upto(samples, n - 1);
        if is_change(samples, n - 1) {
            less.push(samples[n - 1])
        } else {
            less
        }
    }
}

/// A stretch of a video that one hash stands for.
pub struct Stretch {
    pub hash: u64,
    pub start: u32,
    pub end: u32,
}

/// What the first `n` changes stand for: each until the next change, the last until
/// the end. One with nothing to see in it stands for nothing.
pub open spec fn stretches_upto(changes: Seq<Sample>, total: u32, n: int) -> Seq<Stretch>
    decreases n,
{
    if n <= 0 {
        Seq::empty()
    } else {
        let less = stretches_upto(changes, total, n - 1);
        if changes[n - 1].valid {
            less.push(
                Stretch {
                    hash: changes[n - 1].hash,
                    start: changes[n - 1].time,
                    end: if n < changes.len() {
                        changes[n].time
                    } else {
                        total
                    },
                },
            )
        } else {
            less
        }
    }
}

/// What a video's samples stand for.
pub open spec fn stretches(samples: Seq<Sample>, total: u32) -> Seq<Stretch> {
    let changes = changes_upto(samples, samples.len() as int);
    stretches_upto(changes, total, changes.len() as int)
}

/// A video's hashes, and when each starts and stops standing for the picture.
pub struct Timeline {
    pub hashes: Vec<u64>,
    pub t_start: Vec<u32>,
    pub t_end: Vec<u32>,
}

/// Whether a timeline holds these stretches.
pub open spec fn holds(line: Timeline, list: Seq<Stretch>) -> bool {
    &&& line.hashes@.len() == list.len()
    &&& line.t_start@.len() == list.len()
    &&& line.t_end@.len() == list.len()
    &&& forall|i: int|
        0 <= i < list.len() ==> {
            &&& line.hashes@[i] == (#[trigger] list[i]).hash
            &&& line.t_start@[i] == list[i].start
            &&& line.t_end@[i] == list[i].end
        }
}

/// Every sample once, in the order they came in.
fn indices(n: usize) -> (list: Vec<usize>)
    ensures
        list@ == Seq::new(n as nat, |i: int| i as usize),
{
    let mut list: Vec<usize> = Vec::new();
    for i in 0..n
        invariant
            list@.len() == i,
            forall|j: int| 0 <= j < i ==> #[trigger] list@[j] == j as usize,
    {
        list.push(i);
    }
    assert(list@ =~= Seq::new(n as nat, |i: int| i as usize));
    list
}

/// Put a video's samples in order of time, drop those that only repeat the one before,
/// and say how long each of the rest stands for the picture.
///
/// Samples with nothing to see in them are left out, but still end the stretch before
/// them.
pub fn assemble(hashes: &Vec<u64>, flat: &Vec<bool>, times: &Vec<u32>, total: u32) -> (line:
    Timeline)
    requires
        hashes@.len() == times@.len(),
        flat@.len() == times@.len(),
    ensures
        exists|order: Seq<usize>|
            #[trigger] is_time_order(order, times) && holds(
                line,
                stretches(samples_in(order, hashes@, flat@, times@), total),
            ),
{
    let all = indices(times.len());
    let by_time = ByTime { times };
    let order = sorted(&all, &by_time);
    let ghost samples = samples_in(order@, hashes@, flat@, times@);
    assert forall|i: int| 0 <= i < order@.len() implies #[trigger] order@[i] < times@.len() by {
        assert(by_time.knows(order@[i]));
    }
    let mut kept: Vec<usize> = Vec::new();
    for k in 0..order.len()
        invariant
            hashes@.len() == times@.len(),
            flat@.len() == times@.len(),
            samples == samples_in(order@, hashes@, flat@, times@),
            forall|i: int| 0 <= i < order@.len() ==> #[trigger] order@[i] < times@.len(),
            are_at(kept@, hashes@, flat@, times@, changes_upto(samples, k as int)),
    {
        let i = order[k];
        assert(order@[k as int] < times@.len());
        let changed: bool = if k == 0 {
            true
        } else {
            let prev = order[k - 1];
            assert(order@[k - 1] < times@.len());
            hashes[i] != hashes[prev] || flat[i] != flat[prev]
        };
        assert(changed <==> is_change(samples, k as int));
        if changed {
            kept.push(i);
        }
    }
    let ghost changes = changes_upto(samples, samples.len() as int);
    let mut line = Timeline { hashes: Vec::new(), t_start: Vec::new(), t_end: Vec::new() };
    for k in 0..kept.len()
        invariant
            hashes@.len() == times@.len(),
            flat@.len() == times@.len(),
            are_at(kept@, hashes@, flat@, times@, changes),
            holds(line, stretches_upto(changes, total, k as int)),
    {
        let i = kept[k];
        assert(kept@[k as int] < times@.len());
        assert(changes[k as int] == sample_at(hashes@, flat@, times@, kept@[k as int]));
        if !flat[i] {
            let end: u32 = if k + 1 < kept.len() {
                assert(kept@[k + 1] < times@.len());
                assert(changes[k + 1] == sample_at(hashes@, flat@, times@, kept@[k + 1]));
                times[kept[k + 1]]
            } else {
                total
            };
            line.hashes.push(hashes[i]);
            line.t_start.push(times[i]);
            line.t_end.push(end);
        }
    }
    assert(is_time_order(order@, times));
    line
}

/// One of the samples.
spec fn sample_at(hashes: Seq<u64>, flat: Seq<bool>, times: Seq<u32>, i: usize) -> Sample {
    Sample { hash: hashes[i as int], time: times[i as int], valid: !flat[i as int] }
}

/// Whether these places hold these samples.
spec fn are_at(
    kept: Seq<usize>,
    hashes: Seq<u64>,
    flat: Seq<bool>,
    times: Seq<u32>,
    list: Seq<Sample>,
) -> bool {
    &&& kept.len() == list.len()
    &&& forall|i: int| 0 <= i < kept.len() ==> #[trigger] kept[i] < times.len()
    &&& forall|i: int|
        0 <= i < kept.len() ==> #[trigger] list[i] == sample_at(hashes, flat, times, kept[i])
}

/// Samples in order of time.
spec fn ascending(samples: Seq<Sample>) -> bool {
    forall|i: int, j: int|
        0 <= i < j < samples.len() ==> (#[trigger] samples[i]).time <= (#[trigger] samples[j]).time
}

proof fn lemma_changes(samples: Seq<Sample>, n: int, bound: u32)
    requires
        ascending(samples),
        0 <= n <= samples.len(),
        forall|i: int| 0 <= i < samples.len() ==> (#[trigger] samples[i]).time <= bound,
    ensures
        ascending(changes_upto(samples, n)),
        forall|i: int|
            0 <= i < changes_upto(samples, n).len() ==> {
                let s = #[trigger] changes_upto(samples, n)[i];
                s.time <= bound && (n < samples.len() ==> s.time <= samples[n].time)
            },
        changes_upto(samples, n).len() <= n,
    decreases n,
{
    if n > 0 {
        lemma_changes(samples, n - 1, bound);
        let less = changes_upto(samples, n - 1);
        let more = changes_upto(samples, n);
        assert forall|i: int| 0 <= i < more.len() implies {
            let s = #[trigger] more[i];
            s.time <= bound && (n < samples.len() ==> s.time <= samples[n].time)
        } by {
            if i < less.len() {
                assert(more[i] == less[i]);
                assert(less[i].time <= samples[n - 1].time);
            }
            if n < samples.len() {
                assert(samples[n - 1].time <= samples[n].time);
            }
        }
        assert forall|i: int, j: int| 0 <= i < j < more.len() implies (#[trigger] more[i]).time <= (
        #[trigger] more[j]).time by {
            assert(more[i] == less[i]);
            if j < less.len() {
                assert(more[j] == less[j]);
            } else {
                assert(less[i].time <= samples[n - 1].time);
            }
        }
    }
}

proof fn lemma_stretches(changes: Seq<Sample>, total: u32, n: int)
    requires
        ascending(changes),
        0 <= n <= changes.len(),
        forall|i: int| 0 <= i < changes.len() ==> (#[trigger] changes[i]).time <= total,
    ensures
        stretches_upto(changes, total, n).len() <= n,
        forall|i: int|
            0 <= i < stretches_upto(changes, total, n).len() ==> {
                let s = #[trigger] stretches_upto(changes, total, n)[i];
                s.start <= s.end && s.end <= total && (n < changes.len() ==> s.end
                    <= changes[n].time)
            },
        forall|i: int, j: int|
            0 <= i < j < stretches_upto(changes, total, n).len() ==> (#[trigger] stretches_upto(
                changes,
                total,
                n,
            )[i]).end <= (#[trigger] stretches_upto(changes, total, n)[j]).start,
    decreases n,
{
    if n > 0 {
        lemma_stretches(changes, total, n - 1);
        let less = stretches_upto(changes, total, n - 1);
        let more = stretches_upto(changes, total, n);
        if n < changes.len() {
            assert(changes[n - 1].time <= changes[n].time);
        }
        assert forall|i: int| 0 <= i < more.len() implies {
            let s = #[trigger] more[i];
            s.start <= s.end && s.end <= total && (n < changes.len() ==> s.end <= changes[n].time)
        } by {
            if i < less.len() {
                assert(more[i] == less[i]);
                assert(less[i].end <= changes[n - 1].time);
            }
        }
        assert forall|i: int, j: int| 0 <= i < j < more.len() implies (#[trigger] more[i]).end <= (
        #[trigger] more[j]).start by {
            assert(more[i] == less[i]);
            if j < less.len() {
                assert(more[j] == less[j]);
            } else {
                assert(less[i].end <= changes[n - 1].time);
            }
        }
    }
}

/// A fingerprint's stretches follow one another without overlapping, and none reaches
/// past the runtime, where no sample does.
pub proof fn lemma_a_fingerprint_is_in_sequence(
    order: Seq<usize>,
    hashes: Seq<u64>,
    flat: Seq<bool>,
    times: &Vec<u32>,
    total: u32,
    fp: &VideoFingerprint,
)
    requires
        is_time_order(order, times),
        forall|i: int| 0 <= i < times@.len() ==> #[trigger] times@[i] <= total,
        ({
            let list = stretches(samples_in(order, hashes, flat, times@), total);
            holds(
                Timeline {
                    hashes: fp.valid_hashes,
                    t_start: fp.valid_t_start,
                    t_end: fp.valid_t_end,
                },
                list,
            )
        }),
    ensures
        fp.valid_t_start@.len() == fp.valid_hashes@.len(),
        fp.valid_t_end@.len() == fp.valid_hashes@.len(),
        times@.len() < u32::MAX ==> is_timed(fp),
        is_in_sequence(fp),
        forall|i: int| 0 <= i < fp.valid_t_end@.len() ==> #[trigger] fp.valid_t_end@[i] <= total,
{
    let samples = samples_in(order, hashes, flat, times@);
    let all = Seq::new(times@.len(), |i: int| i as usize);
    lemma_same_members(order, all);
    order.to_multiset_ensures();
    all.to_multiset_ensures();
    assert(order.len() == times@.len());
    assert forall|i: int| 0 <= i < samples.len() implies (#[trigger] samples[i]).time <= total by {
        assert(order.contains(order[i]));
        assert(all.contains(order[i]));
        let k = choose|k: int| 0 <= k < all.len() && all[k] == order[i];
        assert(times@[k] <= total);
    }
    let by_time = ByTime { times };
    assert forall|i: int, j: int| 0 <= i < j < samples.len() implies (#[trigger] samples[i]).time
        <= (#[trigger] samples[j]).time by {
        assert(by_time.le(order[i], order[j]));
    }
    lemma_changes(samples, samples.len() as int, total);
    let changes = changes_upto(samples, samples.len() as int);
    lemma_stretches(changes, total, changes.len() as int);
    let list = stretches(samples, total);
    let n = fp.valid_hashes@.len();
    assert forall|i: int| 0 <= i < n implies #[trigger] fp.valid_t_start@[i] <= fp.valid_t_end@[i] by {
        assert(list[i].start <= list[i].end);
    }
    assert forall|i: int, j: int| 0 <= i < j < n implies #[trigger] fp.valid_t_end@[i]
        <= #[trigger] fp.valid_t_start@[j] by {
        assert(list[i].end <= list[j].start);
    }
    assert forall|i: int| 0 <= i < n implies #[trigger] fp.valid_t_end@[i] <= total by {
        assert(list[i].end <= total);
    }
}

/// The runtime to report: what the samples say, where the clock was seen to restart
/// and they outrun what the container says.
pub fn reported_length(length: Seconds, restarted: bool, total_ms: u32) -> (out: Seconds)
    ensures
        !restarted ==> out == length,
        restarted && length.num() * 1000 >= total_ms * length.den() ==> out == length,
        restarted && length.num() * 1000 < total_ms * length.den() ==> out.num() == total_ms
            && out.den() == 1000,
{
    if !restarted {
        return length;
    }
    let (num, den) = length.parts();
    let sampled = Seconds::from_ms(total_ms as u64);
    assert(total_ms * den <= 0xffff_ffff * 0xffff_ffff) by (nonlinear_arith)
        requires
            total_ms <= 0xffff_ffff,
            den <= 0xffff_ffff,
    ;
    if num * 1000 < total_ms as u128 * den as u128 {
        sampled
    } else {
        length
    }
}

} // verus!
