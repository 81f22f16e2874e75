//! From the frames that were decoded of a video to its fingerprint.

use crate::bits::ones;
use crate::container::{is_rate_of, MAX_PLAUSIBLE_FRAME_RATE};
use crate::figures::is_in_sequence;
use crate::fingerprint::VideoFingerprint;
use crate::frames::{is_balanced, is_timed};
use crate::ordering::lemma_same_members;
use crate::picture::{
    are_busy_lines, auto_crop, fits, hash_of, is_crop, is_hash, is_thumbnail, resample, Crop,
    FrameStack, COEFFICIENTS, THUMB,
};
use crate::quantity::{Rate, Seconds};
use crate::sampling::{
    assemble, changes_upto, holds, is_time_order, lemma_a_fingerprint_is_in_sequence,
    lemma_the_runtime_holds_every_sample, reported_length, runtime_of, sample_times, samples_in,
    stretches, stretches_upto, times_of, Sample, Timeline,
};
use vstd::prelude::*;

verus! {

/// What is known of a video besides its frames.
pub struct Source {
    pub path: String,
    pub width: u32,
    pub height: u32,
    /// The runtime its container states.
    pub duration: Seconds,
    pub file_size: u64,
    pub codec: String,
    pub frame_rate: Rate,
}

/// The frequencies of a picture: the order they stand in, and whether they hold too
/// little for it to be told from any other.
pub struct Spectrum {
    pub order: Vec<i32>,
    pub featureless: bool,
}

/// How many pixels a crop holds.
pub open spec fn area(c: Crop) -> int {
    (c.bottom - c.top + 1) * (c.right - c.left + 1)
}

/// Whether this is the crop that the frames call for.
pub open spec fn is_crop_of(stack: &FrameStack, c: Crop) -> bool {
    exists|rows: Seq<bool>, columns: Seq<bool>|
        #[trigger] are_busy_lines(
            stack.sums@,
            stack.squares@,
            stack.frames@.len(),
            rows,
            columns,
        ) && is_crop(rows, columns, c)
}

/// Whether these are the samples of a frame's crop.
pub open spec fn is_thumb(frame: Seq<u8>, c: Crop, thumb: Seq<u32>) -> bool {
    is_thumbnail(frame, c, thumb)
}

/// What a transform has to do: it finds as many frequencies as a hash has bits, in any
/// samples of any crop.
pub open spec fn is_transform<T: Fn(&Vec<u32>, u32) -> Spectrum>(transform: &T) -> bool {
    &&& forall|thumb: Vec<u32>, pixels: u32|
        thumb@.len() == THUMB * THUMB && pixels > 0 ==> #[trigger] transform.requires(
            (&thumb, pixels),
        )
    &&& forall|thumb: Vec<u32>, pixels: u32, s: Spectrum| #[trigger]
        transform.ensures((&thumb, pixels), s) ==> s.order@.len() == COEFFICIENTS
}

/// Whether a frame, cropped and transformed, comes to this hash and this verdict.
pub open spec fn is_hashed<T: Fn(&Vec<u32>, u32) -> Spectrum>(
    transform: &T,
    frame: Seq<u8>,
    c: Crop,
    hash: u64,
    flat: bool,
) -> bool {
    exists|thumb: Vec<u32>, pixels: u32, s: Spectrum|
        is_thumb(frame, c, thumb@) && pixels == area(c) && #[trigger] transform.ensures(
            (&thumb, pixels),
            s,
        ) && is_hash(s.order@, hash) && flat == s.featureless
}

/// Whether every frame comes to its hash and its verdict.
pub open spec fn are_hashed<T: Fn(&Vec<u32>, u32) -> Spectrum>(
    transform: &T,
    frames: Seq<Vec<u8>>,
    c: Crop,
    hashes: Seq<u64>,
    flat: Seq<bool>,
) -> bool {
    &&& hashes.len() == frames.len()
    &&& flat.len() == frames.len()
    &&& forall|k: int|
        0 <= k < frames.len() ==> #[trigger] is_hashed(
            transform,
            frames[k]@,
            c,
            hashes[k],
            flat[k],
        )
}

/// Whether a runtime is the one stated, or what was sampled where that is longer and
/// the clock was seen to restart.
pub open spec fn is_reported(stated: Seconds, restarted: bool, total: nat, out: Seconds) -> bool {
    if restarted && stated.num() * 1000 < total * stated.den() {
        out.num() == total && out.den() == 1000
    } else {
        out == stated
    }
}

/// Whether a fingerprint lists these hashes when they were seen.
pub open spec fn is_timeline(
    fp: &VideoFingerprint,
    times: Seq<u32>,
    hashes: Seq<u64>,
    flat: Seq<bool>,
) -> bool {
    exists|list: Vec<u32>, order: Seq<usize>|
        list@ == times && #[trigger] is_time_order(order, &list) && holds(
            Timeline {
                hashes: fp.valid_hashes,
                t_start: fp.valid_t_start,
                t_end: fp.valid_t_end,
            },
            stretches(samples_in(order, hashes, flat, times), fp.total_ms),
        )
}

/// Whether this is what the video comes to.
pub open spec fn is_fingerprint(
    source: Source,
    times: Seq<Option<u32>>,
    restarted: bool,
    hashes: Seq<u64>,
    flat: Seq<bool>,
    fp: &VideoFingerprint,
) -> bool {
    &&& fp.path@ == source.path@
    &&& fp.width == source.width
    &&& fp.height == source.height
    &&& fp.file_size == source.file_size
    &&& fp.codec@ == source.codec@
    &&& fp.frame_rate == source.frame_rate
    &&& fp.total_ms == runtime_of(times, source.duration)
    &&& is_reported(source.duration, restarted, fp.total_ms as nat, fp.duration)
    &&& is_timeline(fp, times_of(times, source.duration), hashes, flat)
}

/// Put a video's fingerprint together from the frames that were decoded of it. There
/// is none where there were no frames.
///
/// `transform` finds the frequencies of a picture, given its samples and the number
/// that each was multiplied by.
pub fn fingerprint_video<T>(
    source: Source,
    stack: &FrameStack,
    restarted: bool,
    transform: &T,
) -> (fp: Option<VideoFingerprint>) where T: Fn(&Vec<u32>, u32) -> Spectrum
    requires
        stack.is_valid(),
        stack.frames@.len() <= u32::MAX,
        is_transform(transform),
    ensures
        fp is None <==> stack.frames@.len() == 0,
        fp matches Some(f) ==> exists|c: Crop, hashes: Seq<u64>, flat: Seq<bool>|
            is_crop_of(stack, c) && #[trigger] are_hashed(
                transform,
                stack.frames@,
                c,
                hashes,
                flat,
            ) && is_fingerprint(source, stack.times@, restarted, hashes, flat, &f),
{
    if stack.frames.len() == 0 {
        return None;
    }
    let c = auto_crop(stack);
    assert(is_crop_of(stack, c));
    let height: u32 = (c.bottom - c.top + 1) as u32;
    let width: u32 = (c.right - c.left + 1) as u32;
    assert(0 < height * width <= 64 * 64) by (nonlinear_arith)
        requires
            0 < height <= 64,
            0 < width <= 64,
    ;
    let pixels: u32 = height * width;
    let mut hashes: Vec<u64> = Vec::new();
    let mut flat: Vec<bool> = Vec::new();
    for k in 0..stack.frames.len()
        invariant
            stack.is_valid(),
            is_transform(transform),
            fits(c),
            pixels == area(c),
            pixels > 0,
            hashes@.len() == k,
            flat@.len() == k,
            forall|j: int|
                0 <= j < k ==> #[trigger] is_hashed(
                    transform,
                    stack.frames@[j]@,
                    c,
                    hashes@[j],
                    flat@[j],
                ),
    {
        let thumb = resample(&stack.frames[k], c);
        let s = transform(&thumb, pixels);
        let hash = hash_of(&s.order);
        assert(is_hashed(transform, stack.frames@[k as int]@, c, hash, s.featureless));
        hashes.push(hash);
        flat.push(s.featureless);
    }
    assert(are_hashed(transform, stack.frames@, c, hashes@, flat@));
    let (times, total_ms) = sample_times(&stack.times, source.duration);
    let line = assemble(&hashes, &flat, &times, total_ms);
    let duration = reported_length(source.duration, restarted, total_ms);
    let Timeline { hashes: valid_hashes, t_start: valid_t_start, t_end: valid_t_end } = line;
    let fp = VideoFingerprint {
        path: source.path,
        valid_hashes,
        valid_t_start,
        valid_t_end,
        total_ms,
        width: source.width,
        height: source.height,
        duration,
        file_size: source.file_size,
        codec: source.codec,
        frame_rate: source.frame_rate,
    };
    proof {
        let order = choose|order: Seq<usize>|
            #[trigger] is_time_order(order, &times) && holds(
                line,
                stretches(samples_in(order, hashes@, flat@, times@), total_ms),
            );
        assert(is_time_order(order, &times));
        assert(is_timeline(&fp, times_of(stack.times@, source.duration), hashes@, flat@));
        assert(is_fingerprint(source, stack.times@, restarted, hashes@, flat@, &fp));
    }
    Some(fp)
}

/// Every fingerprint is fit to be matched: each hash has its times, the times follow
/// one another without overlapping, none reaches past the runtime, and they can be
/// numbered where the frames can.
pub proof fn lemma_a_fingerprint_can_be_matched(
    source: Source,
    times: Seq<Option<u32>>,
    restarted: bool,
    hashes: Seq<u64>,
    flat: Seq<bool>,
    fp: &VideoFingerprint,
)
    requires
        is_fingerprint(source, times, restarted, hashes, flat, fp),
        times.len() > 0,
    ensures
        fp.valid_t_start@.len() == fp.valid_hashes@.len(),
        fp.valid_t_end@.len() == fp.valid_hashes@.len(),
        times.len() < u32::MAX ==> is_timed(fp),
        is_in_sequence(fp),
        forall|i: int|
            0 <= i < fp.valid_t_end@.len() ==> #[trigger] fp.valid_t_end@[i] <= fp.total_ms,
        fp.total_ms > 0,
{
    let spread = times_of(times, source.duration);
    let (list, order) = choose|list: Vec<u32>, order: Seq<usize>|
        list@ == spread && #[trigger] is_time_order(order, &list) && holds(
            Timeline {
                hashes: fp.valid_hashes,
                t_start: fp.valid_t_start,
                t_end: fp.valid_t_end,
            },
            stretches(samples_in(order, hashes, flat, spread), fp.total_ms),
        );
    assert forall|i: int| 0 <= i < list@.len() implies #[trigger] list@[i] <= fp.total_ms by {
        lemma_the_runtime_holds_every_sample(times, source.duration, i);
    }
    lemma_the_runtime_holds_every_sample(times, source.duration, 0);
    lemma_a_fingerprint_is_in_sequence(order, hashes, flat, &list, fp.total_ms, fp);
}

/// A fingerprint carries what its container said: its path, its size, and a frame rate
/// that can be, or none.
pub proof fn lemma_a_fingerprint_tells_what_it_was_told(
    source: Source,
    times: Seq<Option<u32>>,
    restarted: bool,
    hashes: Seq<u64>,
    flat: Seq<bool>,
    fp: &VideoFingerprint,
    average: (i32, i32),
    nominal: (i32, i32),
    frames: i64,
    length: Seconds,
)
    requires
        is_fingerprint(source, times, restarted, hashes, flat, fp),
        is_rate_of(average, nominal, frames, length, source.frame_rate),
    ensures
        fp.path@ == source.path@,
        fp.file_size == source.file_size,
        fp.frame_rate.num() <= MAX_PLAUSIBLE_FRAME_RATE * fp.frame_rate.den(),
{
}

/// A hash of a fingerprint is that of one of its frames.
proof fn lemma_a_stretch_is_a_sample(changes: Seq<Sample>, total: u32, n: int, i: int)
    requires
        0 <= n <= changes.len(),
        0 <= i < stretches_upto(changes, total, n).len(),
    ensures
        exists|k: int|
            0 <= k < n && (#[trigger] changes[k]).hash == stretches_upto(changes, total, n)[i].hash,
    decreases n,
{
    if n > 0 {
        let less = stretches_upto(changes, total, n - 1);
        if i < less.len() {
            lemma_a_stretch_is_a_sample(changes, total, n - 1, i);
            let k = choose|k: int| 0 <= k < n - 1 && (#[trigger] changes[k]).hash == less[i].hash;
            assert(changes[k].hash == stretches_upto(changes, total, n)[i].hash);
        } else {
            assert(changes[n - 1].hash == stretches_upto(changes, total, n)[i].hash);
        }
    }
}

proof fn lemma_a_change_is_a_sample(samples: Seq<Sample>, n: int, i: int)
    requires
        0 <= n <= samples.len(),
        0 <= i < changes_upto(samples, n).len(),
    ensures
        exists|k: int| 0 <= k < n && #[trigger] samples[k] == changes_upto(samples, n)[i],
    decreases n,
{
    if n > 0 {
        let less = changes_upto(samples, n - 1);
        if i < less.len() {
            lemma_a_change_is_a_sample(samples, n - 1, i);
            let k = choose|k: int| 0 <= k < n - 1 && #[trigger] samples[k] == less[i];
            assert(samples[k] == changes_upto(samples, n)[i]);
        } else {
            assert(samples[n - 1] == changes_upto(samples, n)[i]);
        }
    }
}

/// Every hash of a fingerprint has exactly half of its bits set, whatever the video
/// shows.
pub proof fn lemma_a_fingerprint_is_balanced<T: Fn(&Vec<u32>, u32) -> Spectrum>(
    source: Source,
    transform: &T,
    frames: Seq<Vec<u8>>,
    c: Crop,
    times: Seq<Option<u32>>,
    restarted: bool,
    hashes: Seq<u64>,
    flat: Seq<bool>,
    fp: &VideoFingerprint,
)
    requires
        frames.len() == times.len(),
        are_hashed(transform, frames, c, hashes, flat),
        is_fingerprint(source, times, restarted, hashes, flat, fp),
    ensures
        is_balanced(fp),
{
    let spread = times_of(times, source.duration);
    let (list, order) = choose|list: Vec<u32>, order: Seq<usize>|
        list@ == spread && #[trigger] is_time_order(order, &list) && holds(
            Timeline {
                hashes: fp.valid_hashes,
                t_start: fp.valid_t_start,
                t_end: fp.valid_t_end,
            },
            stretches(samples_in(order, hashes, flat, spread), fp.total_ms),
        );
    let samples = samples_in(order, hashes, flat, spread);
    let changes = changes_upto(samples, samples.len() as int);
    let all = Seq::new(list@.len(), |i: int| i as usize);
    lemma_same_members(order, all);
    assert forall|i: int| 0 <= i < fp.valid_hashes@.len() implies ones(
        #[trigger] fp.valid_hashes@[i],
    ) == 32 by {
        assert(fp.valid_hashes@[i] == stretches(samples, fp.total_ms)[i].hash);
        lemma_a_stretch_is_a_sample(changes, fp.total_ms, changes.len() as int, i);
        let k = choose|k: int|
            0 <= k < changes.len() && (#[trigger] changes[k]).hash == fp.valid_hashes@[i];
        lemma_a_change_is_a_sample(samples, samples.len() as int, k);
        let m = choose|m: int| 0 <= m < samples.len() && #[trigger] samples[m] == changes[k];
        assert(order.contains(order[m]));
        assert(all.contains(order[m]));
        let q = choose|q: int| 0 <= q < all.len() && all[q] == order[m];
        assert(list@.len() == list.len());
        assert(is_hashed(transform, frames[q]@, c, hashes[q], flat[q]));
    }
}

/// The runtime that is reported is never more than the one samples are measured
/// against, to the millisecond and as far as those can be counted.
pub proof fn lemma_the_reported_runtime_is_sampled(
    source: Source,
    times: Seq<Option<u32>>,
    restarted: bool,
    hashes: Seq<u64>,
    flat: Seq<bool>,
    fp: &VideoFingerprint,
)
    requires
        is_fingerprint(source, times, restarted, hashes, flat, fp),
        times.len() > 0,
        source.duration.den() > 0,
        (source.duration.num() * 1000) / source.duration.den() <= u32::MAX,
    ensures
        fp.duration.num() * 1000 < (fp.total_ms + 1) * fp.duration.den(),
{
    lemma_the_runtime_holds_every_sample(times, source.duration, 0);
    let n = source.duration.num() * 1000;
    let d = source.duration.den();
    let t = fp.total_ms as nat;
    assert(n < (t + 1) * d) by (nonlinear_arith)
        requires
            n / d <= t,
            d > 0,
    ;
}

} // verus!
