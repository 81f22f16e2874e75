//! What a container says of a video, and what decoding it will cost.

use crate::big::{at_least, small, times, value};
use crate::fingerprint::capped;
use crate::overlap::Share;
use crate::quantity::{scale, scaled, Rate, Seconds};
use crate::text::{text_standing, Standing};
use vstd::prelude::*;

verus! {

/// Anything above this many frames per second is not a frame rate.
pub const MAX_PLAUSIBLE_FRAME_RATE: u128 = 1000;

/// Ceiling on decoder threads for a single video.
pub const MAX_DECODE_THREADS: usize = 16;

/// Keyframe spacing assumed for a container that will not say how many it holds, in
/// seconds.
pub const ASSUMED_KEYFRAME_SECONDS: u64 = 2;

/// The runtime the container claims: the stream's own where it is positive, or else the
/// container's, in millionths of a second. Zero where neither says.
pub fn duration_seconds(stream: i64, tb_num: i32, tb_den: i32, container: i64) -> (length: Seconds)
    ensures
        stream > 0 && tb_num > 0 && tb_den > 0 ==> length.num() == stream * tb_num && length.den()
            == tb_den,
        !(stream > 0 && tb_num > 0 && tb_den > 0) && container > 0 ==> length.num() == container
            && length.den() == 1_000_000,
        !(stream > 0 && tb_num > 0 && tb_den > 0) && container <= 0 ==> length.num() == 0,
{
    if stream > 0 && tb_num > 0 && tb_den > 0 {
        Seconds::from_ticks(stream as u64, tb_num as u32, tb_den as u32)
    } else if container > 0 {
        Seconds::from_ticks(container as u64, 1, 1_000_000)
    } else {
        Seconds::from_ms(0)
    }
}

/// Whether a fraction says anything: it has a denominator, and is above zero.
pub open spec fn is_positive(r: (i32, i32)) -> bool {
    (r.0 > 0 && r.1 > 0) || (r.0 < 0 && r.1 < 0)
}

/// The size of a number.
pub open spec fn size_of(n: i32) -> nat {
    if n < 0 {
        (-n) as nat
    } else {
        n as nat
    }
}

fn positive(r: (i32, i32)) -> (yes: bool)
    ensures
        yes <==> is_positive(r),
{
    (r.0 > 0 && r.1 > 0) || (r.0 < 0 && r.1 < 0)
}

fn size(n: i32) -> (out: u32)
    ensures
        out == size_of(n),
{
    if n < 0 {
        (-(n as i64)) as u32
    } else {
        n as u32
    }
}

/// What a container says of its frame rate, before it is judged: the average rate, or
/// else the nominal one, or else the frames it counts over its runtime.
pub open spec fn is_stated_rate(
    average: (i32, i32),
    nominal: (i32, i32),
    frames: i64,
    length: Seconds,
    num: nat,
    den: nat,
) -> bool {
    if is_positive(average) {
        num == size_of(average.0) && den == size_of(average.1)
    } else if is_positive(nominal) {
        num == size_of(nominal.0) && den == size_of(nominal.1)
    } else if frames > 0 && length.num() > 0 {
        num == frames * length.den() && den == length.num()
    } else {
        num == 0 && den == 1
    }
}

/// Whether this is the rate a container states, or none where it states none, or one
/// that cannot be.
pub open spec fn is_rate_of(
    average: (i32, i32),
    nominal: (i32, i32),
    frames: i64,
    length: Seconds,
    rate: Rate,
) -> bool {
    exists|num: nat, den: nat|
        #[trigger] is_stated_rate(average, nominal, frames, length, num, den) && if num
            > MAX_PLAUSIBLE_FRAME_RATE * den {
            rate.num() == 0 && rate.den() == 1
        } else {
            rate.num() == num && rate.den() == den
        }
}

/// Average frames per second, or unknown when the container never said, or said what
/// cannot be.
pub fn frame_rate_of(
    average: (i32, i32),
    nominal: (i32, i32),
    frames: i64,
    length: Seconds,
) -> (rate: Rate)
    ensures
        is_rate_of(average, nominal, frames, length, rate),
{
    let rate = if positive(average) {
        Rate::from_fraction(size(average.0), size(average.1))
    } else if positive(nominal) {
        Rate::from_fraction(size(nominal.0), size(nominal.1))
    } else if frames > 0 && length.is_positive() {
        Rate::from_frames(frames as u64, &length)
    } else {
        Rate::unknown()
    };
    let (num, den) = rate.parts();
    assert(is_stated_rate(average, nominal, frames, length, num as nat, den as nat));
    if num > MAX_PLAUSIBLE_FRAME_RATE * den {
        Rate::unknown()
    } else {
        rate
    }
}

/// What a header says of a video stream.
#[derive(Clone, Copy, Debug)]
pub struct Header {
    pub codec_known: bool,
    pub width: i32,
    pub height: i32,
    pub extradata: i32,
    pub tb_den: i32,
    pub duration: Seconds,
    pub frame_rate: Rate,
}

/// Whether the header alone answers every question a file will be asked. Without a
/// video stream it never does.
pub fn header_is_complete(header: &Option<Header>) -> (yes: bool)
    ensures
        yes <==> match *header {
            None => false,
            Some(h) => h.codec_known && h.width > 0 && h.height > 0 && h.extradata > 0 && h.tb_den
                > 0 && h.duration.num() > 0 && h.frame_rate.num() > 0,
        },
{
    match header {
        None => false,
        Some(h) => {
            let (num, _) = h.frame_rate.parts();
            h.codec_known && h.width > 0 && h.height > 0 && h.extradata > 0 && h.tb_den > 0
                && h.duration.is_positive() && num > 0
        },
    }
}

/// Whether a runtime is known to be below a floor. An unknown one is not.
pub open spec fn is_too_short(length: Seconds, floor: Seconds) -> bool {
    length.num() > 0 && length.num() * floor.den() < floor.num() * length.den()
}

/// Whether a file is too short to hold a match as long as asked for. One whose runtime
/// is unknown is never skipped.
pub fn too_short(length: Seconds, floor: Seconds) -> (yes: bool)
    ensures
        yes <==> is_too_short(length, floor),
{
    let (num, den) = length.parts();
    let (floor_num, floor_den) = floor.parts();
    assert(num * floor_den < 0x1_0000_0000_0000_0000_0000_0000_0000_0000 && floor_num * den
        < 0x1_0000_0000_0000_0000_0000_0000_0000_0000) by (nonlinear_arith)
        requires
            num < 0x1_0000_0000_0000_0000_0000_0000,
            floor_num < 0x1_0000_0000_0000_0000_0000_0000,
            den < 0x1_0000_0000,
            floor_den < 0x1_0000_0000,
    ;
    let left: u128 = num * floor_den as u128;
    let right: u128 = floor_num * den as u128;
    num > 0 && left < right
}

/// One video's share of the decoder threads: at least one, and no more than help.
pub fn thread_share(threads: usize) -> (out: usize)
    ensures
        1 <= out <= MAX_DECODE_THREADS,
        1 <= threads <= MAX_DECODE_THREADS ==> out == threads,
        threads < 1 ==> out == 1,
        threads > MAX_DECODE_THREADS ==> out == MAX_DECODE_THREADS,
{
    if threads < 1 {
        1
    } else if threads > MAX_DECODE_THREADS {
        MAX_DECODE_THREADS
    } else {
        threads
    }
}

/// The smallest whole number not below `n / d`.
pub open spec fn ceiling(n: nat, d: nat) -> nat {
    if n % d == 0 {
        n / d
    } else {
        n / d + 1
    }
}

/// `a * b / c`, rounded up, or the largest `u64` where it does not fit.
pub fn scale_up(a: u64, b: u128, c: u128) -> (out: u64)
    requires
        c > 0,
    ensures
        out == capped(ceiling(a as nat * b as nat, c as nat)),
{
    let q = scale(a, b, c);
    let ghost n = a as nat * b as nat;
    if q == u64::MAX {
        return q;
    }
    let whole = times(&small(b), a as u128);
    let part = times(&small(c), q as u128);
    proof {
        assert(value(whole@) == n) by (nonlinear_arith)
            requires
                value(whole@) == b * a,
                n == a * b,
        ;
        vstd::arithmetic::div_mod::lemma_fundamental_div_mod(n as int, c as int);
        assert(value(part@) == c * (n / c as nat));
    }
    if at_least(&part, &whole) {
        q
    } else {
        q + 1
    }
}

/// How much a pixel of a codec costs to decode, in tenths of what one of H.264 does.
pub open spec fn cost_of(codec: Seq<char>) -> u64 {
    if codec == "hevc"@ {
        17
    } else if codec == "av1"@ {
        8
    } else {
        10
    }
}

/// How much a pixel of this codec costs to decode, in tenths of what one of H.264 does.
/// A codec nobody measured is charged the same as H.264.
pub fn codec_cost(codec: &str) -> (tenths: u64)
    ensures
        tenths == cost_of(codec@),
{
    match text_standing(codec, "hevc") {
        Standing::Same => {
            return 17;
        },
        _ => {},
    }
    match text_standing(codec, "av1") {
        Standing::Same => 8,
        _ => 10,
    }
}

/// What a file nothing is known about is charged: by its bytes.
pub open spec fn weight_of_bytes(size: nat) -> nat {
    let work = capped(scaled(size, 38, 10));
    if work < 1 {
        1
    } else {
        work
    }
}

/// What a file nothing is known about is charged.
pub fn weigh_bytes(size: u64) -> (work: u64)
    ensures
        work == weight_of_bytes(size as nat),
{
    let work = scale(size, 38, 10);
    if work < 1 {
        1
    } else {
        work
    }
}

/// How keyframes are thinned out: at most one every so often, but no fewer than so
/// many of a short video.
#[derive(Clone, Copy, Debug)]
pub struct Thinning {
    pub interval: Seconds,
    pub min_samples: Share,
}

/// How many keyframes are left of a video once thinned: no more than its length holds
/// intervals, or the least number asked for.
pub open spec fn thinned(length: Seconds, t: Thinning) -> nat {
    let by_time = capped(ceiling(t.interval.den() * length.num(), length.den() * t.interval.num()));
    let least = ceiling(t.min_samples.part(), t.min_samples.whole());
    let most = if by_time < least {
        least
    } else {
        by_time
    };
    if most < 1 {
        1
    } else {
        most
    }
}

/// How many keyframes will be decoded of a video that holds so many. A video that
/// will not say is taken to hold one every two seconds.
pub open spec fn decoded(keyframes: nat, length: Seconds, t: Thinning) -> nat {
    let held = if keyframes > 0 {
        keyframes
    } else {
        let assumed = capped(
            ceiling(length.num(), length.den() * ASSUMED_KEYFRAME_SECONDS as nat),
        );
        if assumed < 1 {
            1
        } else {
            assumed
        }
    };
    if t.interval.num() > 0 && length.num() > 0 && thinned(length, t) < held {
        thinned(length, t)
    } else {
        held
    }
}

/// The work of decoding so many keyframes of so many pixels, at least one.
pub open spec fn weight_of(keyframes: nat, pixels: nat, cost: nat) -> nat {
    let work = capped(scaled(keyframes, pixels * cost, 10));
    if work < 1 {
        1
    } else {
        work
    }
}

fn keyframes_left(length: Seconds, t: Thinning) -> (most: u64)
    requires
        t.interval.num() > 0,
    ensures
        most == thinned(length, t),
{
    let (num, den) = length.parts();
    let (every, every_den) = t.interval.parts();
    let (part, whole) = t.min_samples.parts();
    assert(0 < den * every < 0x1_0000_0000_0000_0000_0000_0000_0000_0000) by (nonlinear_arith)
        requires
            0 < den < 0x1_0000_0000,
            0 < every < 0x1_0000_0000_0000_0000_0000_0000,
    ;
    let by_time = scale_up(every_den as u64, num, den as u128 * every);
    let least = scale_up(1, part as u128, whole as u128);
    proof {
        assert(1 * part == part);
        assert(ceiling(part as nat, whole as nat) <= part as nat + 1) by (nonlinear_arith)
            requires
                whole > 0,
                ceiling(part as nat, whole as nat) <= part as nat / whole as nat + 1,
        ;
    }
    let most: u64 = if by_time < least {
        least
    } else {
        by_time
    };
    if most < 1 {
        1
    } else {
        most
    }
}

/// How much decoding a file is going to cost, in pixels of keyframes. `None` where the
/// container says too little: neither how many keyframes it holds nor how long it is.
pub fn weigh(
    keyframes: u64,
    pixels: u64,
    length: Seconds,
    codec: &str,
    t: Thinning,
) -> (work: Option<u64>)
    ensures
        work is None <==> keyframes == 0 && length.num() == 0,
        work matches Some(w) ==> w == weight_of(
            decoded(keyframes as nat, length, t),
            pixels as nat,
            cost_of(codec@) as nat,
        ),
{
    let (num, den) = length.parts();
    let mut held = keyframes;
    if held == 0 {
        if num == 0 {
            return None;
        }
        held = scale_up(1, num, den as u128 * ASSUMED_KEYFRAME_SECONDS as u128);
        if held < 1 {
            held = 1;
        }
    }
    if t.interval.is_positive() && num > 0 {
        let left = keyframes_left(length, t);
        if left < held {
            held = left;
        }
    }
    let cost = codec_cost(codec);
    assert(pixels * cost < 0x1_0000_0000_0000_0000_0000) by (nonlinear_arith)
        requires
            pixels < 0x1_0000_0000_0000_0000,
            cost <= 17,
    ;
    let work = scale(held, pixels as u128 * cost as u128, 10);
    Some(
        if work < 1 {
            1
        } else {
            work
        },
    )
}

/// What is known of a file while it is being weighed.
#[derive(Clone, Copy, Debug)]
pub enum Weighing {
    /// It was opened, and its header may name a video stream.
    Opened { stream: bool, complete: bool, length: Seconds },
    /// Its streams were probed, for want of one.
    ProbedForStream { stream: bool },
    /// Its index was read, before or after seeking to its start.
    Counted { keyframes: u64, sought: bool },
    /// The size of its picture was asked for, before or after probing for it.
    Sized { pixels: u64, probed: bool },
}

/// What to do next to weigh a file.
#[derive(Clone, Copy, Debug)]
pub enum WeighStep {
    /// Probe its streams: the header names no video stream.
    ProbeForStream,
    /// Nothing more: it holds no video.
    NoVideo,
    /// Nothing more: it is too short to matter.
    TooShort(Seconds),
    /// Read its index.
    Count,
    /// Seek to its start, and read its index again.
    Seek,
    /// Ask for the size of its picture.
    Size,
    /// Probe its streams: the header does not say how large the picture is.
    ProbeForSize,
    /// Nothing more: it is weighed by its bytes.
    ByBytes,
    /// Nothing more: enough is known to weigh it.
    Weigh,
}

/// What follows what. A file is only found too short by a header that the decoder will
/// trust as it is; one whose stream only a probe could find is weighed by its bytes, as
/// the probe has spoilt its index.
pub open spec fn is_next_question(seen: Weighing, min_duration: Seconds, step: WeighStep) -> bool {
    match seen {
        Weighing::Opened { stream, complete, length } => if !stream {
            step is ProbeForStream
        } else if min_duration.num() > 0 && complete && is_too_short(length, min_duration) {
            step == WeighStep::TooShort(length)
        } else {
            step is Count
        },
        Weighing::ProbedForStream { stream } => if stream {
            step is ByBytes
        } else {
            step is NoVideo
        },
        Weighing::Counted { keyframes, sought } => if keyframes == 0 && !sought {
            step is Seek
        } else {
            step is Size
        },
        Weighing::Sized { pixels, probed } => if pixels > 0 {
            step is Weigh
        } else if probed {
            step is ByBytes
        } else {
            step is ProbeForSize
        },
    }
}

/// The next question to ask of a file that is being weighed.
pub fn weigh_decode(seen: Weighing, min_duration: Seconds) -> (step: WeighStep)
    ensures
        is_next_question(seen, min_duration, step),
{
    match seen {
        Weighing::Opened { stream, complete, length } => {
            if !stream {
                WeighStep::ProbeForStream
            } else if min_duration.is_positive() && complete && too_short(length, min_duration) {
                WeighStep::TooShort(length)
            } else {
                WeighStep::Count
            }
        },
        Weighing::ProbedForStream { stream } => {
            if stream {
                WeighStep::ByBytes
            } else {
                WeighStep::NoVideo
            }
        },
        Weighing::Counted { keyframes, sought } => {
            if keyframes == 0 && !sought {
                WeighStep::Seek
            } else {
                WeighStep::Size
            }
        },
        Weighing::Sized { pixels, probed } => {
            if pixels > 0 {
                WeighStep::Weigh
            } else if probed {
                WeighStep::ByBytes
            } else {
                WeighStep::ProbeForSize
            }
        },
    }
}

/// The weigher and the decoder agree: of a file whose header the decoder trusts as it is,
/// the weigher says that it is too short exactly where the decoder skips it, and of no
/// other.
pub proof fn lemma_the_weigher_skips_what_the_decoder_skips(
    seen: Weighing,
    min_duration: Seconds,
    step: WeighStep,
)
    requires
        is_next_question(seen, min_duration, step),
    ensures
        seen matches Weighing::Opened { stream: true, complete: true, length } ==> (step
            is TooShort <==> is_too_short(length, min_duration)),
        step matches WeighStep::TooShort(told) ==> (seen matches Weighing::Opened {
            stream: true,
            complete: true,
            length,
        } && told == length),
{
    if let Weighing::Opened { stream, complete, length } = seen {
        if min_duration.num() == 0 {
            assert(!is_too_short(length, min_duration)) by {
                let (n, d) = (length.num() as int, min_duration.den() as int);
                let e = length.den() as int;
                assert(!(n * d < 0 * e)) by (nonlinear_arith)
                    requires
                        n >= 0,
                        d >= 0,
                ;
            }
        }
    }
}

/// Thinning never adds work, and a floor on the samples only ever makes it finer.
pub proof fn lemma_thinning_only_removes_work(keyframes: nat, length: Seconds, t: Thinning)
    requires
        keyframes > 0,
    ensures
        decoded(keyframes, length, t) <= keyframes,
        decoded(keyframes, length, t) > 0,
{
}

} // verus!
