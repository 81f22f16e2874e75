//! What lengths of time, rates and shares promise of the numbers they are made of.

use crate::compare::Match;
use crate::overlap::{Footage, Share, Span};
use crate::quantity::{lemma_scaled, scale, Rate, Seconds};
use vstd::prelude::*;

verus! {

/// Scaling gives the largest whole number that is not too large, where it fits.
pub proof fn lemma_scaling_is_just_not_too_much(a: u64, b: u128, c: u128, out: u64)
    requires
        call_ensures(scale, (a, b, c), out),
        c > 0,
    ensures
        out * c <= a * b,
        out < u64::MAX ==> a * b < (out + 1) * c,
{
    lemma_scaled(a as nat, b as nat, c as nat);
    let q = crate::quantity::scaled(a as nat, b as nat, c as nat);
    if q > u64::MAX {
        assert(out * c <= q * c) by (nonlinear_arith)
            requires
                out <= q,
        ;
    }
}

/// Ticks of a clock come to as many seconds as each of them counts.
pub proof fn lemma_ticks_come_to_seconds(ticks: u64, tb_num: u32, tb_den: u32, s: Seconds)
    requires
        call_ensures(Seconds::from_ticks, (ticks, tb_num, tb_den), s),
        tb_den > 0,
    ensures
        s.num() * tb_den == ticks * tb_num * s.den(),
        s.den() > 0,
{
}

/// Milliseconds make a length of time that has that many, and no fraction of one.
pub proof fn lemma_milliseconds_are_kept(ms: u64, s: Seconds, back: u32, positive: bool)
    requires
        call_ensures(Seconds::from_ms, (ms,), s),
        call_ensures(Seconds::whole_ms, (&s,), back),
        call_ensures(Seconds::is_positive, (&s,), positive),
    ensures
        s.num() * 1000 == ms * s.den(),
        ms <= u32::MAX ==> back == ms,
        ms > u32::MAX ==> back == u32::MAX,
        positive <==> ms > 0,
{
}

/// A length of time is cut to its whole milliseconds.
pub proof fn lemma_whole_milliseconds(s: Seconds, ms: u32)
    requires
        call_ensures(Seconds::whole_ms, (&s,), ms),
        s.den() > 0,
    ensures
        ms * s.den() <= s.num() * 1000,
        ms < u32::MAX ==> s.num() * 1000 < (ms + 1) * s.den(),
{
    let (n, d) = ((s.num() * 1000) as int, s.den() as int);
    let q = n / d;
    vstd::arithmetic::div_mod::lemma_fundamental_div_mod(n, d);
    vstd::arithmetic::div_mod::lemma_mod_bound(n, d);
    assert(q * d == d * q && (q + 1) * d == q * d + d) by (nonlinear_arith);
    if q > u32::MAX {
        assert(ms * d <= q * d) by (nonlinear_arith)
            requires
                ms <= q,
                d > 0,
        ;
    }
}

/// Frames spread over a length of time are as many as the rate makes of it again.
pub proof fn lemma_a_rate_makes_its_frames_again(frames: u64, length: Seconds, r: Rate)
    requires
        call_ensures(Rate::from_frames, (frames, &length), r),
        length.num() > 0,
    ensures
        r.num() * length.num() == frames * length.den() * r.den(),
{
    let (f, l, d) = (frames as int, length.num() as int, length.den() as int);
    assert((f * d) * l == f * d * l) by (nonlinear_arith);
}

/// One share is at least another where it is after both are put over one denominator.
pub proof fn lemma_shares_are_compared_as_fractions(a: Share, b: Share, yes: bool, some: bool)
    requires
        call_ensures(Share::at_least, (&a, &b), yes),
        call_ensures(Share::is_positive, (&a,), some),
    ensures
        yes <==> a.part() * b.whole() >= b.part() * a.whole(),
        some <==> a.part() > 0,
{
}

/// Some footage is at least as long as other footage where its share of its runtime is,
/// in seconds.
pub proof fn lemma_footage_is_compared_in_seconds(a: Footage, b: Footage, yes: bool)
    requires
        call_ensures(Footage::at_least, (&a, &b), yes),
    ensures
        yes <==> (b.share.part() * b.runtime.num()) * (a.share.whole() * a.runtime.den()) <= (
        a.share.part() * a.runtime.num()) * (b.share.whole() * b.runtime.den()),
{
}

/// The ends of a stretch in seconds are those in milliseconds.
pub proof fn lemma_the_ends_of_a_stretch(span: Span, start: Seconds, end: Seconds)
    requires
        call_ensures(Span::start_seconds, (&span,), start),
        call_ensures(Span::end_seconds, (&span,), end),
    ensures
        start.num() * 1000 == span.start_ms * start.den(),
        end.num() * 1000 == span.end_ms * end.den(),
{
}

/// A match keeps the two videos apart: what is given of the first is the first's, and of
/// the second the second's.
pub proof fn lemma_a_match_keeps_its_sides(
    a: usize,
    b: usize,
    of_a: Share,
    of_b: Share,
    m: Match,
    in_a: (u32, u32),
    in_b: (u32, u32),
    placed: Match,
)
    requires
        call_ensures(Match::new, (a, b, of_a, of_b), m),
        call_ensures(Match::with_spans, (m, in_a, in_b), placed),
    ensures
        m.span_a is None && m.span_b is None,
        placed.a == a && placed.b == b && placed.coverage_a == of_a && placed.coverage_b == of_b,
        placed.span_a matches Some(s) && s.start_ms == in_a.0 && s.end_ms == in_a.1,
        placed.span_b matches Some(s) && s.start_ms == in_b.0 && s.end_ms == in_b.1,
{
}

} // verus!
