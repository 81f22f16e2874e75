//! How much of each of two videos the other contains, and where.

use crate::big::{at_least, small, times, value};
use crate::corroborate::{collect, corroborate_pair, is_close_a, is_close_b, is_schedule, Rule};
use crate::fingerprint::VideoFingerprint;
use crate::frames::{
    frame_distance, is_admitted, is_matched_a, is_matched_b, is_timed, EVERY_OFFSET,
    MAX_ALIGNED_MATCHES,
};
use crate::quantity::Seconds;
use crate::witness::Witnesses;
use vstd::prelude::*;

verus! {

/// A fraction of something, kept exact.
#[derive(Clone, Copy, Debug)]
pub struct Share {
    part: u32,
    whole: u32,
}

impl Share {
    /// The numerator.
    pub closed spec fn part(&self) -> nat {
        self.part as nat
    }

    /// The denominator.
    pub closed spec fn whole(&self) -> nat {
        self.whole as nat
    }

    #[verifier::type_invariant]
    spec fn is_valid(self) -> bool {
        self.whole > 0
    }

    /// `part` out of `whole`.
    pub fn new(part: u32, whole: u32) -> (share: Share)
        requires
            whole > 0,
        ensures
            share.part() == part,
            share.whole() == whole,
    {
        Share { part, whole }
    }

    /// Numerator and denominator.
    pub fn parts(&self) -> (parts: (u32, u32))
        ensures
            parts.0 == self.part(),
            parts.1 == self.whole(),
            parts.1 > 0,
    {
        proof {
            use_type_invariant(self);
        }
        (self.part, self.whole)
    }

    /// Is this more than nothing?
    pub fn is_positive(&self) -> (yes: bool)
        ensures
            yes <==> self.part() > 0,
    {
        self.part > 0
    }

    /// Is this no less than the other?
    pub fn at_least(&self, other: &Share) -> (yes: bool)
        ensures
            yes <==> share_le(*other, *self),
    {
        let a: u64 = self.part as u64;
        let b: u64 = self.whole as u64;
        let c: u64 = other.part as u64;
        let d: u64 = other.whole as u64;
        assert(a * d <= 0xffff_ffff * 0xffff_ffff && c * b <= 0xffff_ffff * 0xffff_ffff)
            by (nonlinear_arith)
            requires
                a <= 0xffff_ffff,
                b <= 0xffff_ffff,
                c <= 0xffff_ffff,
                d <= 0xffff_ffff,
        ;
        c * b <= a * d
    }
}

/// Is one fraction no more than the other?
pub open spec fn share_le(a: Share, b: Share) -> bool {
    a.part() * b.whole() <= b.part() * a.whole()
}

/// Where in one file's own runtime its matched footage lies: the start of the
/// first sample that matched and the end of the last, in milliseconds.
///
/// This is an envelope, not a contiguous run: matched samples can be scattered
/// through it.
#[derive(Clone, Copy, Debug, PartialEq, Eq, Structural)]
pub struct Span {
    pub start_ms: u32,
    pub end_ms: u32,
}

/// The first sample that matched.
pub open spec fn is_first(matched: Seq<bool>, i: int) -> bool {
    0 <= i < matched.len() && matched[i] && forall|x: int| 0 <= x < i ==> !#[trigger] matched[x]
}

/// The last sample that matched.
pub open spec fn is_last(matched: Seq<bool>, i: int) -> bool {
    0 <= i < matched.len() && matched[i] && forall|x: int|
        i < x < matched.len() ==> !#[trigger] matched[x]
}

/// The envelope of the samples that matched, where any did.
pub open spec fn is_envelope(matched: Seq<bool>, fp: &VideoFingerprint, span: Option<Span>) -> bool {
    match span {
        None => forall|x: int| 0 <= x < matched.len() ==> !#[trigger] matched[x],
        Some(s) => exists|first: int, last: int|
            #[trigger] is_first(matched, first) && #[trigger] is_last(matched, last) && s.start_ms
                == fp.valid_t_start@[first] && s.end_ms == fp.valid_t_end@[last],
    }
}

impl Span {
    /// The envelope of the samples flagged in `matched`, or `None` when none were.
    pub fn of(matched: &Vec<bool>, fp: &VideoFingerprint) -> (span: Option<Span>)
        requires
            matched@.len() == fp.valid_hashes@.len(),
            is_timed(fp),
        ensures
            is_envelope(matched@, fp, span),
    {
        let n = matched.len();
        let mut first: usize = 0;
        while first < n && !matched[first]
            invariant
                n == matched@.len(),
                first <= n,
                forall|x: int| 0 <= x < first ==> !#[trigger] matched@[x],
            decreases n - first,
        {
            first = first + 1;
        }
        if first == n {
            return None;
        }
        let mut last: usize = n - 1;
        while !matched[last]
            invariant
                n == matched@.len(),
                first <= last < n,
                matched@[first as int],
                forall|x: int| last < x < n ==> !#[trigger] matched@[x],
            decreases last,
        {
            last = last - 1;
        }
        assert(is_first(matched@, first as int));
        assert(is_last(matched@, last as int));
        Some(Span { start_ms: fp.valid_t_start[first], end_ms: fp.valid_t_end[last] })
    }

    /// Where the footage starts.
    pub fn start_seconds(&self) -> (s: Seconds)
        ensures
            s.num() == self.start_ms,
            s.den() == 1000,
    {
        Seconds::from_ms(self.start_ms as u64)
    }

    /// Where the footage ends.
    pub fn end_seconds(&self) -> (s: Seconds)
        ensures
            s.num() == self.end_ms,
            s.den() == 1000,
    {
        Seconds::from_ms(self.end_ms as u64)
    }
}

/// How long one sample stands for, in milliseconds.
pub open spec fn sample_ms(fp: &VideoFingerprint, i: int) -> nat {
    if fp.valid_t_end@[i] > fp.valid_t_start@[i] {
        (fp.valid_t_end@[i] - fp.valid_t_start@[i]) as nat
    } else {
        0
    }
}

/// How long the first `n` samples stand for, counting those that matched.
pub open spec fn covered_upto(matched: Seq<bool>, fp: &VideoFingerprint, n: int) -> nat
    decreases n,
{
    if n <= 0 {
        0
    } else {
        covered_upto(matched, fp, n - 1) + if matched[n - 1] {
            sample_ms(fp, n - 1)
        } else {
            0
        }
    }
}

/// How long the samples that matched stand for.
pub open spec fn covered(matched: Seq<bool>, fp: &VideoFingerprint) -> nat {
    covered_upto(matched, fp, matched.len() as int)
}

/// The part of a runtime that was covered, at most all of it. Nothing of an empty
/// runtime is covered.
pub open spec fn is_coverage(ms: nat, total: nat, share: Share) -> bool {
    if total == 0 {
        share.part() == 0 && share.whole() == 1
    } else {
        share.whole() == total && share.part() == if ms <= total {
            ms
        } else {
            total
        }
    }
}

/// How much of a video its matched samples cover.
pub fn coverage_of(matched: &Vec<bool>, fp: &VideoFingerprint) -> (share: Share)
    requires
        matched@.len() == fp.valid_hashes@.len(),
        is_timed(fp),
    ensures
        is_coverage(covered(matched@, fp), fp.total_ms as nat, share),
{
    let mut ms: u64 = 0;
    for i in 0..matched.len()
        invariant
            matched@.len() == fp.valid_hashes@.len(),
            is_timed(fp),
            ms == covered_upto(matched@, fp, i as int),
            ms <= i * 0xffff_ffff,
    {
        if matched[i] {
            let from = fp.valid_t_start[i];
            let to = fp.valid_t_end[i];
            if to > from {
                ms = ms + (to - from) as u64;
            }
        }
    }
    let total = fp.total_ms;
    if total > 0 {
        Share::new(
            if ms <= total as u64 {
                ms as u32
            } else {
                total
            },
            total,
        )
    } else {
        Share::new(0, 1)
    }
}

/// A stretch of one file's runtime: a share of its length.
#[derive(Clone, Copy, Debug)]
pub struct Footage {
    pub share: Share,
    pub runtime: Seconds,
}

/// The numerator of the stretch in seconds.
pub open spec fn footage_num(f: Footage) -> nat {
    f.share.part() * f.runtime.num()
}

/// The denominator of the stretch in seconds.
pub open spec fn footage_den(f: Footage) -> nat {
    f.share.whole() * f.runtime.den()
}

/// Is one stretch no longer than the other?
pub open spec fn footage_le(a: Footage, b: Footage) -> bool {
    footage_num(a) * footage_den(b) <= footage_num(b) * footage_den(a)
}

/// A stretch whose fractions have denominators.
pub open spec fn is_footage(f: Footage) -> bool {
    f.share.whole() > 0 && f.runtime.den() > 0
}

pub proof fn lemma_footage_total(a: Footage, b: Footage)
    ensures
        footage_le(a, b) || footage_le(b, a),
{
}

pub proof fn lemma_footage_transitive(a: Footage, b: Footage, c: Footage)
    requires
        is_footage(b),
        footage_le(a, b),
        footage_le(b, c),
    ensures
        footage_le(a, c),
{
    let (p, q) = (footage_num(a), footage_den(a));
    let (r, s) = (footage_num(b), footage_den(b));
    let (t, u) = (footage_num(c), footage_den(c));
    assert(s > 0) by (nonlinear_arith)
        requires
            s == b.share.whole() * b.runtime.den(),
            b.share.whole() > 0,
            b.runtime.den() > 0,
    ;
    assert(p * u <= t * q) by (nonlinear_arith)
        requires
            s > 0,
            p * s <= r * q,
            r * u <= t * s,
            0 <= p,
            0 <= q,
            0 <= u,
            0 <= t,
            0 <= r,
    {
        assert((p * s) * u <= (r * q) * u);
        assert((r * u) * q <= (t * s) * q);
        assert((p * u) * s <= (t * q) * s);
    }
}

impl Footage {
    /// The stretch as one fraction of seconds, cross-multiplied with another's
    /// denominator.
    fn crossed(&self, other: &Footage) -> (out: Vec<u32>)
        ensures
            value(out@) == footage_num(*self) * footage_den(*other),
            is_footage(*self),
            is_footage(*other),
    {
        let (part, whole) = self.share.parts();
        let (num, den) = self.runtime.parts();
        let (_, other_whole) = other.share.parts();
        let (_, other_den) = other.runtime.parts();
        let base = small(num);
        let scaled = times(&base, part as u128);
        assert(other_whole * other_den <= 0xffff_ffff * 0xffff_ffff) by (nonlinear_arith)
            requires
                other_whole <= 0xffff_ffff,
                other_den <= 0xffff_ffff,
        ;
        let below: u128 = other_whole as u128 * other_den as u128;
        let out = times(&scaled, below);
        assert(num * part == part * num) by (nonlinear_arith);
        out
    }

    /// Is this stretch no shorter than the other?
    pub fn at_least(&self, other: &Footage) -> (yes: bool)
        ensures
            yes <==> footage_le(*other, *self),
            is_footage(*self),
            is_footage(*other),
    {
        at_least(&self.crossed(other), &other.crossed(self))
    }
}

/// Which samples of one video the other matches.
pub open spec fn is_marking_a(
    a: &VideoFingerprint,
    b: &VideoFingerprint,
    strict: nat,
    loose: nat,
    matched: Seq<bool>,
) -> bool {
    &&& matched.len() == a.valid_hashes@.len()
    &&& forall|i: int|
        0 <= i < matched.len() ==> (#[trigger] matched[i] <==> is_matched_a(a, b, strict, loose, i))
}

/// Which samples of the other video the first matches.
pub open spec fn is_marking_b(
    a: &VideoFingerprint,
    b: &VideoFingerprint,
    strict: nat,
    loose: nat,
    matched: Seq<bool>,
) -> bool {
    &&& matched.len() == b.valid_hashes@.len()
    &&& forall|j: int|
        0 <= j < matched.len() ==> (#[trigger] matched[j] <==> is_matched_b(a, b, strict, loose, j))
}

/// How much of a video some samples cover, and where they lie.
pub open spec fn is_measure(
    matched: Seq<bool>,
    fp: &VideoFingerprint,
    share: Share,
    span: Option<Span>,
) -> bool {
    is_coverage(covered(matched, fp), fp.total_ms as nat, share) && is_envelope(matched, fp, span)
}

/// What one pair has in common, measured from either end.
#[derive(Clone, Copy, Debug)]
pub struct Overlap {
    pub coverage_a: Share,
    pub coverage_b: Share,
    pub span_a: Option<Span>,
    pub span_b: Option<Span>,
}

/// What two videos have in common: each side's matched samples, measured against
/// its own runtime.
pub open spec fn is_overlap(
    a: &VideoFingerprint,
    b: &VideoFingerprint,
    strict: nat,
    loose: nat,
    o: Overlap,
) -> bool {
    exists|ma: Seq<bool>, mb: Seq<bool>|
        #[trigger] is_marking_a(a, b, strict, loose, ma) && #[trigger] is_marking_b(
            a,
            b,
            strict,
            loose,
            mb,
        ) && is_measure(ma, a, o.coverage_a, o.span_a) && is_measure(mb, b, o.coverage_b, o.span_b)
}

/// What two videos have in common is settled by the videos and the tolerance.
pub proof fn lemma_one_overlap(
    a: &VideoFingerprint,
    b: &VideoFingerprint,
    strict: nat,
    loose: nat,
    o: Overlap,
    p: Overlap,
)
    requires
        is_overlap(a, b, strict, loose, o),
        is_overlap(a, b, strict, loose, p),
    ensures
        o.coverage_a.part() == p.coverage_a.part(),
        o.coverage_a.whole() == p.coverage_a.whole(),
        o.coverage_b.part() == p.coverage_b.part(),
        o.coverage_b.whole() == p.coverage_b.whole(),
        o.span_a == p.span_a,
        o.span_b == p.span_b,
{
    let (ma, mb) = choose|ma: Seq<bool>, mb: Seq<bool>|
        #[trigger] is_marking_a(a, b, strict, loose, ma) && #[trigger] is_marking_b(
            a,
            b,
            strict,
            loose,
            mb,
        ) && is_measure(ma, a, o.coverage_a, o.span_a) && is_measure(
            mb,
            b,
            o.coverage_b,
            o.span_b,
        );
    let (na, nb) = choose|na: Seq<bool>, nb: Seq<bool>|
        #[trigger] is_marking_a(a, b, strict, loose, na) && #[trigger] is_marking_b(
            a,
            b,
            strict,
            loose,
            nb,
        ) && is_measure(na, a, p.coverage_a, p.span_a) && is_measure(
            nb,
            b,
            p.coverage_b,
            p.span_b,
        );
    assert(ma =~= na);
    assert(mb =~= nb);
    lemma_one_envelope(ma, a, o.span_a, p.span_a);
    lemma_one_envelope(mb, b, o.span_b, p.span_b);
}

proof fn lemma_one_envelope(
    matched: Seq<bool>,
    fp: &VideoFingerprint,
    s: Option<Span>,
    t: Option<Span>,
)
    requires
        is_envelope(matched, fp, s),
        is_envelope(matched, fp, t),
    ensures
        s == t,
{
    match (s, t) {
        (Some(x), Some(y)) => {
            let (f, l) = choose|f: int, l: int|
                #[trigger] is_first(matched, f) && #[trigger] is_last(matched, l) && x.start_ms
                    == fp.valid_t_start@[f] && x.end_ms == fp.valid_t_end@[l];
            let (g, m) = choose|g: int, m: int|
                #[trigger] is_first(matched, g) && #[trigger] is_last(matched, m) && y.start_ms
                    == fp.valid_t_start@[g] && y.end_ms == fp.valid_t_end@[m];
            if f < g {
                assert(matched[f]);
            }
            if g < f {
                assert(matched[g]);
            }
            if l < m {
                assert(matched[m]);
            }
            if m < l {
                assert(matched[l]);
            }
        },
        (Some(x), None) => {
            let (f, l) = choose|f: int, l: int|
                #[trigger] is_first(matched, f) && #[trigger] is_last(matched, l) && x.start_ms
                    == fp.valid_t_start@[f] && x.end_ms == fp.valid_t_end@[l];
            assert(matched[f]);
        },
        (None, Some(y)) => {
            let (g, m) = choose|g: int, m: int|
                #[trigger] is_first(matched, g) && #[trigger] is_last(matched, m) && y.start_ms
                    == fp.valid_t_start@[g] && y.end_ms == fp.valid_t_end@[m];
            assert(matched[g]);
        },
        (None, None) => {},
    }
}

proof fn lemma_there_is_an_envelope(matched: Seq<bool>, fp: &VideoFingerprint) -> (span: Option<
    Span,
>)
    ensures
        is_envelope(matched, fp, span),
{
    if exists|i: int| 0 <= i < matched.len() && #[trigger] matched[i] {
        let i = choose|i: int| 0 <= i < matched.len() && #[trigger] matched[i];
        let first = lemma_first(matched, i);
        let last = lemma_last(matched, i);
        assert(is_first(matched, first) && is_last(matched, last));
        Some(Span { start_ms: fp.valid_t_start@[first], end_ms: fp.valid_t_end@[last] })
    } else {
        None
    }
}

proof fn lemma_first(matched: Seq<bool>, i: int) -> (first: int)
    requires
        0 <= i < matched.len(),
        matched[i],
    ensures
        is_first(matched, first),
    decreases i,
{
    if exists|x: int| 0 <= x < i && #[trigger] matched[x] {
        let x = choose|x: int| 0 <= x < i && #[trigger] matched[x];
        lemma_first(matched, x)
    } else {
        i
    }
}

proof fn lemma_last(matched: Seq<bool>, i: int) -> (last: int)
    requires
        0 <= i < matched.len(),
        matched[i],
    ensures
        is_last(matched, last),
    decreases matched.len() - i,
{
    if exists|x: int| i < x < matched.len() && #[trigger] matched[x] {
        let x = choose|x: int| i < x < matched.len() && #[trigger] matched[x];
        lemma_last(matched, x)
    } else {
        i
    }
}

proof fn lemma_there_is_a_coverage(ms: nat, total: u32) -> (share: Share)
    ensures
        is_coverage(ms, total as nat, share),
{
    if total == 0 {
        Share { part: 0, whole: 1 }
    } else if ms <= total {
        Share { part: ms as u32, whole: total }
    } else {
        Share { part: total, whole: total }
    }
}

/// Any two videos have something in common to be measured, if only nothing.
pub proof fn lemma_there_is_an_overlap(
    a: &VideoFingerprint,
    b: &VideoFingerprint,
    strict: nat,
    loose: nat,
) -> (o: Overlap)
    ensures
        is_overlap(a, b, strict, loose, o),
{
    let ma = Seq::new(a.valid_hashes@.len(), |i: int| is_matched_a(a, b, strict, loose, i));
    let mb = Seq::new(b.valid_hashes@.len(), |j: int| is_matched_b(a, b, strict, loose, j));
    assert(is_marking_a(a, b, strict, loose, ma));
    assert(is_marking_b(a, b, strict, loose, mb));
    let o = Overlap {
        coverage_a: lemma_there_is_a_coverage(covered(ma, a), a.total_ms),
        coverage_b: lemma_there_is_a_coverage(covered(mb, b), b.total_ms),
        span_a: lemma_there_is_an_envelope(ma, a),
        span_b: lemma_there_is_an_envelope(mb, b),
    };
    assert(is_measure(ma, a, o.coverage_a, o.span_a));
    assert(is_measure(mb, b, o.coverage_b, o.span_b));
    o
}

/// As many marks as there are samples, none set.
fn blank(n: usize) -> (marks: Vec<bool>)
    ensures
        marks@.len() == n,
        forall|i: int| 0 <= i < n ==> !#[trigger] marks@[i],
{
    let mut marks: Vec<bool> = Vec::new();
    for i in 0..n
        invariant
            marks@.len() == i,
            forall|x: int| 0 <= x < i ==> !#[trigger] marks@[x],
    {
        marks.push(false);
    }
    marks
}

/// Where the two tolerances meet, only the strict matches count.
proof fn lemma_strict_only(a: &VideoFingerprint, b: &VideoFingerprint, strict: nat, loose: nat)
    requires
        loose <= strict,
    ensures
        forall|i: int|
            0 <= i < a.valid_hashes@.len() ==> (#[trigger] is_matched_a(a, b, strict, loose, i)
                <==> is_close_a(a, b, strict, i, a.valid_hashes@.len() as int, 0)),
        forall|j: int|
            0 <= j < b.valid_hashes@.len() ==> (#[trigger] is_matched_b(a, b, strict, loose, j)
                <==> is_close_b(a, b, strict, j, a.valid_hashes@.len() as int, 0)),
{
    let n = a.valid_hashes@.len() as int;
    assert forall|i: int| 0 <= i < n implies (#[trigger] is_matched_a(a, b, strict, loose, i)
        <==> is_close_a(a, b, strict, i, n, 0)) by {
        if is_matched_a(a, b, strict, loose, i) {
            let j = choose|j: int| #[trigger] is_admitted(a, b, strict, loose, i, j);
            assert(frame_distance(a, b, i, j) <= strict);
        }
        if is_close_a(a, b, strict, i, n, 0) {
            let j = choose|j: int|
                0 <= j < b.valid_hashes@.len() && crate::corroborate::is_before(i, j, n, 0)
                    && #[trigger] frame_distance(a, b, i, j) <= strict;
            assert(is_admitted(a, b, strict, loose, i, j));
        }
    }
    assert forall|j: int| 0 <= j < b.valid_hashes@.len() implies (#[trigger] is_matched_b(
        a,
        b,
        strict,
        loose,
        j,
    ) <==> is_close_b(a, b, strict, j, n, 0)) by {
        if is_matched_b(a, b, strict, loose, j) {
            let i = choose|i: int| #[trigger] is_admitted(a, b, strict, loose, i, j);
            assert(frame_distance(a, b, i, j) <= strict);
        }
        if is_close_b(a, b, strict, j, n, 0) {
            let i = choose|i: int|
                0 <= i < n && crate::corroborate::is_before(i, j, n, 0)
                    && #[trigger] frame_distance(a, b, i, j) <= strict;
            assert(is_admitted(a, b, strict, loose, i, j));
        }
    }
}

/// Compare every frame of one video with every frame of the other: how much of
/// each the other contains, and where.
///
/// Each stored hash stands for the picture over its own stretch of time, so the
/// matched footage is the sum of the stretches that matched, not a count of samples.
pub fn match_overlap(
    fp_a: &VideoFingerprint,
    fp_b: &VideoFingerprint,
    rule: Rule,
    witnesses: &mut Witnesses,
) -> (overlap: Overlap)
    requires
        is_timed(fp_a),
        is_timed(fp_b),
        is_schedule(rule.schedule@),
        old(witnesses).is_valid(),
    ensures
        final(witnesses).is_valid(),
        is_overlap(fp_a, fp_b, rule.tol.strict as nat, rule.tol.loose as nat, overlap),
{
    let ghost strict = rule.tol.strict as nat;
    let ghost loose = rule.tol.loose as nat;
    let mut matched_a = blank(fp_a.valid_hashes.len());
    let mut matched_b = blank(fp_b.valid_hashes.len());
    if rule.tol.loose > rule.tol.strict {
        corroborate_pair(
            fp_a,
            fp_b,
            rule,
            &mut matched_a,
            &mut matched_b,
            MAX_ALIGNED_MATCHES,
            witnesses,
        );
    } else {
        // Nothing to corroborate, so nothing is worth holding on to.
        collect(fp_a, fp_b, rule.tol, &mut matched_a, &mut matched_b, EVERY_OFFSET, Some(0));
        proof {
            lemma_strict_only(fp_a, fp_b, strict, loose);
        }
    }
    let overlap = Overlap {
        coverage_a: coverage_of(&matched_a, fp_a),
        coverage_b: coverage_of(&matched_b, fp_b),
        span_a: Span::of(&matched_a, fp_a),
        span_b: Span::of(&matched_b, fp_b),
    };
    assert(is_marking_a(fp_a, fp_b, strict, loose, matched_a@));
    assert(is_marking_b(fp_a, fp_b, strict, loose, matched_b@));
    overlap
}

} // verus!
