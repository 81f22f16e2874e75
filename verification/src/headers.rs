//! What a header is taken to say, and what a file is charged for decoding it.

use crate::container::{
    ceiling, codec_cost, decoded, duration_seconds, frame_rate_of, header_is_complete,
    is_stated_rate, scale_up, thinned, thread_share, too_short, weigh, weigh_bytes, weigh_decode,
    Header, Thinning, WeighStep, Weighing,
};
use crate::quantity::{lemma_scaled, Rate, Seconds};
use vstd::prelude::*;

verus! {

/// A stream that states its runtime lasts that many ticks of its clock, whatever its
/// container says. Else a container that states one lasts that many millionths of a
/// second. Where neither does, the runtime is unknown.
pub proof fn lemma_a_stream_knows_its_own_runtime(
    stream: i64,
    tb_num: i32,
    tb_den: i32,
    container: i64,
    length: Seconds,
)
    requires
        call_ensures(duration_seconds, (stream, tb_num, tb_den, container), length),
    ensures
        stream > 0 && tb_num > 0 && tb_den > 0 ==> length.num() * tb_den == stream * tb_num
            * length.den() && length.num() > 0,
        (stream <= 0 || tb_num <= 0 || tb_den <= 0) && container > 0 ==> length.num() * 1_000_000
            == container * length.den() && length.num() > 0,
        (stream <= 0 || tb_num <= 0 || tb_den <= 0) && container <= 0 ==> length.num() == 0,
{
    if stream > 0 && tb_num > 0 && tb_den > 0 {
        assert(stream * tb_num > 0) by (nonlinear_arith)
            requires
                stream > 0,
                tb_num > 0,
        ;
    }
}

/// Whether a fraction of whole numbers is above zero.
pub open spec fn says_something(r: (i32, i32)) -> bool {
    r.0 * r.1 > 0
}

/// Whether a rate is what some fraction says, or unknown where that is above a thousand.
pub open spec fn is_as_said(rate: Rate, num: int, den: int) -> bool {
    if num > 1000 * den {
        rate.num() == 0
    } else {
        rate.num() > 0 && rate.num() * den == num * rate.den()
    }
}

/// The size of a whole number.
pub open spec fn magnitude(n: i32) -> int {
    if n < 0 {
        -n
    } else {
        n as int
    }
}

/// A frame rate is what the container says it is on average, or else what it says it is,
/// or else the frames it counts over its runtime. A rate above a thousand is not
/// believed, and where nothing is said the rate is unknown.
pub proof fn lemma_a_frame_rate_is_the_first_one_said(
    average: (i32, i32),
    nominal: (i32, i32),
    frames: i64,
    length: Seconds,
    rate: Rate,
)
    requires
        call_ensures(frame_rate_of, (average, nominal, frames, length), rate),
    ensures
        says_something(average) ==> is_as_said(rate, magnitude(average.0), magnitude(average.1)),
        !says_something(average) && says_something(nominal) ==> is_as_said(
            rate,
            magnitude(nominal.0),
            magnitude(nominal.1),
        ),
        !says_something(average) && !says_something(nominal) && frames > 0 && length.num() > 0
            && length.den() > 0 ==> is_as_said(rate, frames * length.den(), length.num() as int),
        !says_something(average) && !says_something(nominal) && (frames <= 0 || length.num() == 0)
            ==> rate.num() == 0,
        rate.num() <= 1000 * rate.den(),
{
    lemma_signs(average);
    lemma_signs(nominal);
    let (num, den) = choose|num: nat, den: nat|
        #[trigger] is_stated_rate(average, nominal, frames, length, num, den) && if num > 1000
            * den {
            rate.num() == 0 && rate.den() == 1
        } else {
            rate.num() == num && rate.den() == den
        };
    if !says_something(average) && !says_something(nominal) && frames > 0 && length.num() > 0
        && length.den() > 0 {
        assert(frames * length.den() > 0) by (nonlinear_arith)
            requires
                frames > 0,
                length.den() > 0,
        ;
        let (n, d) = (frames * length.den(), length.num() as int);
        assert(n * d == d * n) by (nonlinear_arith);
    }
}

proof fn lemma_signs(r: (i32, i32))
    ensures
        says_something(r) <==> (r.0 > 0 && r.1 > 0) || (r.0 < 0 && r.1 < 0),
{
    let (a, b) = (r.0 as int, r.1 as int);
    assert(a * b > 0 <==> (a > 0 && b > 0) || (a < 0 && b < 0)) by (nonlinear_arith);
}

/// A header that answers everything is one that names the codec, the size of the picture,
/// what the decoder needs to know first, the clock, the runtime and the frame rate.
/// Taking any one of them away leaves it incomplete.
pub proof fn lemma_a_complete_header_lacks_nothing(header: &Option<Header>, yes: bool)
    requires
        call_ensures(header_is_complete, (header,), yes),
    ensures
        yes ==> (header matches Some(h) && h.codec_known && h.width > 0 && h.height > 0
            && h.extradata > 0 && h.tb_den > 0 && h.duration.num() > 0 && h.frame_rate.num() > 0),
        (header matches Some(h) && h.codec_known && h.width > 0 && h.height > 0 && h.extradata > 0
            && h.tb_den > 0 && h.duration.num() > 0 && h.frame_rate.num() > 0) ==> yes,
{
}

/// A file is too short where its runtime is known and below the floor. One at the floor
/// is long enough.
pub proof fn lemma_an_unknown_runtime_is_not_too_short(length: Seconds, floor: Seconds, yes: bool)
    requires
        call_ensures(too_short, (length, floor), yes),
    ensures
        length.num() == 0 ==> !yes,
        length.num() > 0 ==> (yes <==> length.num() * floor.den() < floor.num() * length.den()),
{
}

/// A video never has fewer than one decoder thread, nor more than sixteen, and any number
/// between as it is.
pub proof fn lemma_threads_are_bounded(threads: usize, out: usize)
    requires
        call_ensures(thread_share, (threads,), out),
    ensures
        1 <= out <= 16,
        out <= threads || out == 1,
        threads <= 16 ==> threads <= out,
        threads > 16 ==> out == 16,
{
}

proof fn lemma_ceiling(n: nat, d: nat)
    requires
        d > 0,
    ensures
        n <= ceiling(n, d) * d,
        n > 0 ==> (ceiling(n, d) - 1) * d < n,
        n == 0 ==> ceiling(n, d) == 0,
        n > 0 ==> ceiling(n, d) > 0,
{
    let (q, r) = ((n / d) as int, (n % d) as int);
    let (m, e) = (n as int, d as int);
    vstd::arithmetic::div_mod::lemma_fundamental_div_mod(m, e);
    vstd::arithmetic::div_mod::lemma_mod_bound(m, e);
    assert(m == e * q + r && 0 <= r < e);
    assert(e * q == q * e && (q + 1) * e == q * e + e && (q - 1) * e == q * e - e) by (nonlinear_arith);
    if m == 0 {
        assert(q == 0 && r == 0) by (nonlinear_arith)
            requires
                0 == e * q + r,
                0 <= r < e,
        ;
    } else {
        assert(r > 0 || q > 0) by (nonlinear_arith)
            requires
                m == e * q + r,
                m > 0,
                0 <= r,
                e > 0,
        ;
        assert(q >= 0) by (nonlinear_arith)
            requires
                m == e * q + r,
                0 <= r < e,
                m > 0,
        ;
    }
}

/// Whether a number is another one over a third, rounded up.
pub open spec fn is_rounded_up(out: int, n: int, d: int) -> bool {
    n <= out * d && (n > 0 ==> (out - 1) * d < n) && (n == 0 ==> out == 0)
}

proof fn lemma_one_rounding_up(a: int, b: int, n: int, d: int)
    requires
        d > 0,
        is_rounded_up(a, n, d),
        is_rounded_up(b, n, d),
        n >= 0,
    ensures
        a == b,
{
    if n > 0 {
        assert(a == b) by (nonlinear_arith)
            requires
                d > 0,
                n <= a * d,
                (a - 1) * d < n,
                n <= b * d,
                (b - 1) * d < n,
        ;
    }
}

/// Scaling up gives the least whole number that is enough, where it fits.
pub proof fn lemma_scaling_up_is_just_enough(a: u64, b: u128, c: u128, out: u64)
    requires
        call_ensures(scale_up, (a, b, c), out),
        c > 0,
        out < u64::MAX,
    ensures
        is_rounded_up(out as int, a * b, c as int),
{
    assert(a as nat * b as nat == a * b);
    lemma_ceiling(a as nat * b as nat, c as nat);
}

/// A pixel of HEVC costs seventeen tenths of one of H.264, one of AV1 eight tenths, and
/// one of any other codec the same.
pub proof fn lemma_what_codecs_cost(codec: &str, tenths: u64)
    requires
        call_ensures(codec_cost, (codec,), tenths),
    ensures
        codec@ == "hevc"@ ==> tenths == 17,
        codec@ == "av1"@ ==> tenths == 8,
        codec@ != "hevc"@ && codec@ != "av1"@ ==> tenths == 10,
{
    reveal_strlit("hevc");
    reveal_strlit("av1");
    assert("hevc"@.len() != "av1"@.len());
}

/// A file that says nothing of itself is charged thirty-eight tenths of its bytes, and
/// one at least.
pub proof fn lemma_bytes_are_charged_in_proportion(size: u64, work: u64)
    requires
        call_ensures(weigh_bytes, (size,), work),
    ensures
        work >= 1,
        work < u64::MAX ==> size * 38 < (work + 1) * 10,
        work > 1 ==> work * 10 <= size * 38,
{
    lemma_scaled(size as nat, 38, 10);
}

/// A file that is not thinned out, and says how many keyframes it holds, is charged for
/// each of their pixels by its codec, and one at least.
pub proof fn lemma_every_pixel_of_a_keyframe_is_charged(
    keyframes: u64,
    pixels: u64,
    length: Seconds,
    codec: &str,
    t: Thinning,
    work: Option<u64>,
    tenths: u64,
)
    requires
        call_ensures(weigh, (keyframes, pixels, length, codec, t), work),
        call_ensures(codec_cost, (codec,), tenths),
        keyframes > 0,
        t.interval.num() == 0,
    ensures
        work matches Some(w) && w >= 1 && (w < u64::MAX ==> keyframes * (pixels * tenths) < (w + 1)
            * 10) && (w > 1 ==> w * 10 <= keyframes * (pixels * tenths)),
{
    lemma_scaled(keyframes as nat, pixels as nat * tenths as nat, 10);
    assert(decoded(keyframes as nat, length, t) == keyframes);
}

/// A file that does not say how many keyframes it holds is charged as if it held one for
/// every two seconds of its runtime. One that does not say how long it is either is not
/// charged at all.
pub proof fn lemma_a_keyframe_every_two_seconds(
    held: u64,
    pixels: u64,
    length: Seconds,
    codec: &str,
    t: Thinning,
    work: Option<u64>,
    told: Option<u64>,
)
    requires
        call_ensures(weigh, (0, pixels, length, codec, t), work),
        call_ensures(weigh, (held, pixels, length, codec, t), told),
        length.den() > 0,
        held < u64::MAX,
        is_rounded_up(held as int, length.num() as int, (length.den() * 2) as int),
    ensures
        length.num() == 0 ==> work is None,
        length.num() > 0 ==> work is Some && work == told,
{
    if length.num() > 0 {
        lemma_ceiling(length.num(), length.den() * 2);
        lemma_one_rounding_up(
            held as int,
            ceiling(length.num(), length.den() * 2) as int,
            length.num() as int,
            (length.den() * 2) as int,
        );
        assert(held > 0);
        assert(decoded(0, length, t) == decoded(held as nat, length, t));
    }
}

/// Thinning out charges a file as if it held no more keyframes than its runtime holds
/// intervals, or the fewest samples asked for where those are more, and one at least. It
/// never charges for more than it holds.
pub proof fn lemma_thinning_charges_for_an_interval_each(
    keyframes: u64,
    fewer: u64,
    pixels: u64,
    length: Seconds,
    codec: &str,
    t: Thinning,
    plain: Thinning,
    work: Option<u64>,
    told: Option<u64>,
    intervals: nat,
    floor: nat,
)
    requires
        call_ensures(weigh, (keyframes, pixels, length, codec, t), work),
        call_ensures(weigh, (fewer, pixels, length, codec, plain), told),
        keyframes > 0,
        length.num() > 0,
        length.den() > 0,
        t.interval.num() > 0,
        t.min_samples.whole() > 0,
        plain.interval.num() == 0,
        intervals <= u64::MAX,
        is_rounded_up(
            intervals as int,
            (t.interval.den() * length.num()) as int,
            (length.den() * t.interval.num()) as int,
        ),
        is_rounded_up(
            floor as int,
            t.min_samples.part() as int,
            t.min_samples.whole() as int,
        ),
        fewer == ({
            let left = if intervals < floor {
                floor
            } else {
                intervals
            };
            let least = if left < 1 {
                1
            } else {
                left
            };
            if least < keyframes {
                least
            } else {
                keyframes as nat
            }
        }),
    ensures
        work is Some,
        work == told,
{
    let (n, d) = (t.interval.den() * length.num(), length.den() * t.interval.num());
    assert(d > 0) by (nonlinear_arith)
        requires
            d == length.den() * t.interval.num(),
            length.den() > 0,
            t.interval.num() > 0,
    ;
    lemma_ceiling(n, d);
    lemma_one_rounding_up(intervals as int, ceiling(n, d) as int, n as int, d as int);
    let (p, w) = (t.min_samples.part(), t.min_samples.whole());
    lemma_ceiling(p, w);
    lemma_one_rounding_up(floor as int, ceiling(p, w) as int, p as int, w as int);
    assert(decoded(keyframes as nat, length, t) == fewer);
    assert(decoded(fewer as nat, length, plain) == fewer);
}

/// What is asked of a file that is being weighed. A file is found too short by a complete
/// header alone; one whose stream took probing for is weighed by its bytes; its start is
/// sought, and its streams probed for the size of the picture, no more than once.
pub proof fn lemma_what_is_asked_of_a_file(seen: Weighing, floor: Seconds, step: WeighStep)
    requires
        call_ensures(weigh_decode, (seen, floor), step),
    ensures
        seen matches Weighing::Opened { stream, complete, length } ==> {
            &&& !stream ==> step is ProbeForStream
            &&& stream && complete && floor.num() > 0 && length.num() > 0 && length.num()
                * floor.den() < floor.num() * length.den() ==> step == WeighStep::TooShort(length)
            &&& stream && !(complete && floor.num() > 0 && length.num() > 0 && length.num()
                * floor.den() < floor.num() * length.den()) ==> step is Count
        },
        seen matches Weighing::ProbedForStream { stream } ==> {
            &&& stream ==> step is ByBytes
            &&& !stream ==> step is NoVideo
        },
        seen matches Weighing::Counted { keyframes, sought } ==> {
            &&& keyframes > 0 || sought ==> step is Size
            &&& keyframes == 0 && !sought ==> step is Seek
        },
        seen matches Weighing::Sized { pixels, probed } ==> {
            &&& pixels > 0 ==> step is Weigh
            &&& pixels == 0 && probed ==> step is ByBytes
            &&& pixels == 0 && !probed ==> step is ProbeForSize
        },
{
}

} // verus!
