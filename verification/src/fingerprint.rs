//! What one video is reduced to, and how its samples are timed.

use crate::quantity::{lemma_scaled, scale, scaled, Rate, Seconds};
use vstd::prelude::*;

verus! {

/// One video: its sampled hashes and what its container says of it.
#[derive(Clone, Debug)]
pub struct VideoFingerprint {
    pub path: String,
    pub valid_hashes: Vec<u64>,
    /// Milliseconds from the start of the video at which each stored hash was
    /// sampled, ascending.
    pub valid_t_start: Vec<u32>,
    /// Milliseconds at which each stored hash stops standing in for the picture.
    pub valid_t_end: Vec<u32>,
    /// The video's runtime in milliseconds.
    pub total_ms: u32,
    pub width: u32,
    pub height: u32,
    pub duration: Seconds,
    pub file_size: u64,
    /// The codec's short name.
    pub codec: String,
    /// Average frames per second, unknown when the container never said.
    pub frame_rate: Rate,
}

/// A figure, or the largest one there is where it does not fit.
pub open spec fn capped(n: nat) -> nat {
    if n <= u64::MAX {
        n
    } else {
        u64::MAX as nat
    }
}

/// Bits per second, rounded down. Zero where the runtime is unknown.
pub open spec fn bitrate_of(fp: &VideoFingerprint) -> nat {
    if fp.duration.num() > 0 {
        capped(scaled(fp.file_size as nat, 8 * fp.duration.den(), fp.duration.num()))
    } else {
        0
    }
}

/// Bits per frame, rounded down. Zero where the frame rate or the runtime is unknown.
pub open spec fn quality_of(fp: &VideoFingerprint) -> nat {
    if fp.frame_rate.num() > 0 {
        capped(scaled(bitrate_of(fp), fp.frame_rate.den(), fp.frame_rate.num()))
    } else {
        0
    }
}

impl VideoFingerprint {
    /// Overall bitrate in bits per second.
    ///
    /// Taken from bytes and seconds, so that it means the same for every container.
    pub fn bitrate(&self) -> (bps: u64)
        ensures
            bps == bitrate_of(self),
    {
        let (num, den) = self.duration.parts();
        if num > 0 {
            scale(self.file_size, 8 * den as u128, num)
        } else {
            0
        }
    }

    /// Bits spent on an average frame: bitrate divided by frame rate.
    ///
    /// Zero says that nothing is known, not that the copy is bad.
    pub fn quality(&self) -> (bits: u64)
        ensures
            bits == quality_of(self),
    {
        let (num, den) = self.frame_rate.parts();
        if num > 0 {
            scale(self.bitrate(), den, num)
        } else {
            0
        }
    }
}

/// A bitrate times the runtime is the size in bits, to within one bit a second. It is
/// capped where it does not fit, and nothing where the runtime is unknown.
pub proof fn lemma_a_bitrate_over_the_runtime_is_the_size(fp: &VideoFingerprint, bps: u64)
    requires
        call_ensures(VideoFingerprint::bitrate, (fp,), bps),
    ensures
        fp.duration.num() == 0 ==> bps == 0,
        fp.duration.num() > 0 ==> bps * fp.duration.num() <= 8 * fp.file_size * fp.duration.den(),
        fp.duration.num() > 0 && bps < u64::MAX ==> 8 * fp.file_size * fp.duration.den() < (bps + 1)
            * fp.duration.num(),
{
    let (n, d) = (fp.duration.num(), fp.duration.den());
    let size = fp.file_size as nat;
    if n > 0 {
        assert(size * (8 * d) == 8 * size * d) by (nonlinear_arith);
        lemma_scaled(size, 8 * d, n);
        lemma_capped_scaled(size, 8 * d, n);
    }
}

/// A quality times the frame rate is the bitrate, to within one bit of every frame. It
/// is capped where it does not fit, and nothing where the rate is unknown.
pub proof fn lemma_a_quality_over_the_frames_is_the_bitrate(
    fp: &VideoFingerprint,
    bps: u64,
    bits: u64,
)
    requires
        call_ensures(VideoFingerprint::bitrate, (fp,), bps),
        call_ensures(VideoFingerprint::quality, (fp,), bits),
    ensures
        fp.frame_rate.num() == 0 ==> bits == 0,
        fp.frame_rate.num() > 0 ==> bits * fp.frame_rate.num() <= bps * fp.frame_rate.den(),
        fp.frame_rate.num() > 0 && bits < u64::MAX ==> bps * fp.frame_rate.den() < (bits + 1)
            * fp.frame_rate.num(),
{
    let (n, d) = (fp.frame_rate.num(), fp.frame_rate.den());
    if n > 0 {
        lemma_scaled(bps as nat, d, n);
        lemma_capped_scaled(bps as nat, d, n);
    }
}

proof fn lemma_capped_scaled(a: nat, b: nat, c: nat)
    requires
        c > 0,
    ensures
        capped(scaled(a, b, c)) * c <= a * b,
{
    lemma_scaled(a, b, c);
    let (s, t) = (capped(scaled(a, b, c)), scaled(a, b, c));
    assert(s * c <= t * c) by (nonlinear_arith)
        requires
            s <= t,
    ;
}

/// Equal frame rates give equal qualities, however the fractions are written.
pub proof fn lemma_equal_rates_give_equal_qualities(
    fp: &VideoFingerprint,
    other: &VideoFingerprint,
    bps: u64,
    bits: u64,
    as_many: u64,
)
    requires
        call_ensures(VideoFingerprint::bitrate, (fp,), bps),
        call_ensures(VideoFingerprint::bitrate, (other,), bps),
        call_ensures(VideoFingerprint::quality, (fp,), bits),
        call_ensures(VideoFingerprint::quality, (other,), as_many),
        fp.frame_rate.num() > 0,
        other.frame_rate.num() > 0,
        fp.frame_rate.num() * other.frame_rate.den() == other.frame_rate.num()
            * fp.frame_rate.den(),
    ensures
        bits == as_many,
{
    lemma_a_quality_over_the_frames_is_the_bitrate(fp, bps, bits);
    lemma_a_quality_over_the_frames_is_the_bitrate(other, bps, as_many);
    let (n, d) = (fp.frame_rate.num() as int, fp.frame_rate.den() as int);
    let (m, e) = (other.frame_rate.num() as int, other.frame_rate.den() as int);
    lemma_no_more(bps as int, bits as int, as_many as int, n, d, m, e);
    lemma_no_more(bps as int, as_many as int, bits as int, m, e, n, d);
}

proof fn lemma_no_more(b: int, x: int, y: int, n: int, d: int, m: int, e: int)
    requires
        0 <= b,
        0 <= x <= u64::MAX,
        0 <= y <= u64::MAX,
        n > 0,
        m > 0,
        d >= 0,
        e >= 0,
        n * e == m * d,
        x * n <= b * d,
        y < u64::MAX ==> b * e < (y + 1) * m,
    ensures
        x <= y,
{
    if y < u64::MAX && x > y {
        assert((y + 1) * n <= x * n) by (nonlinear_arith)
            requires
                y + 1 <= x,
                n > 0,
        ;
        assert(((y + 1) * n) * m <= (b * d) * m) by (nonlinear_arith)
            requires
                (y + 1) * n <= b * d,
                m > 0,
        ;
        assert((b * e) * n < ((y + 1) * m) * n) by (nonlinear_arith)
            requires
                b * e < (y + 1) * m,
                n > 0,
        ;
        assert((b * d) * m == b * (m * d)) by (nonlinear_arith);
        assert((b * e) * n == b * (n * e)) by (nonlinear_arith);
        assert(((y + 1) * n) * m == ((y + 1) * m) * n) by (nonlinear_arith);
    }
}

} // verus!
