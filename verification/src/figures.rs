//! What holds of the figures that matching reports.

use crate::compare::{pair_footage, recorded, Match};
use crate::evidence::loose_for;
use crate::fingerprint::VideoFingerprint;
use crate::frames::{
    is_admitted, is_matched_a, is_matched_b, is_timed, lemma_tolerance_only_admits_more,
};
use crate::overlap::{
    covered, covered_upto, footage_den, footage_le, footage_num, is_coverage, is_envelope, is_first,
    is_last, is_marking_a, is_marking_b, is_measure, is_overlap, lemma_footage_total, share_le,
    Footage, Overlap, Share, Span,
};
use vstd::prelude::*;

verus! {

/// A pair's figures can be looked up from either end, whichever way round it was
/// found.
pub proof fn lemma_a_pair_is_known_from_both_ends(matches: Seq<Match>, a: usize, b: usize)
    ensures
        recorded(matches, a, b) is Some <==> recorded(matches, b, a) is Some,
        recorded(matches, a, b) is Some <==> exists|i: int|
            0 <= i < matches.len() && (((#[trigger] matches[i]).a == a && matches[i].b == b) || (
            matches[i].a == b && matches[i].b == a)),
    decreases matches.len(),
{
    if matches.len() > 0 {
        let less = matches.drop_last();
        lemma_a_pair_is_known_from_both_ends(less, a, b);
        let m = matches[matches.len() - 1];
        if recorded(less, a, b) is Some {
            let i = choose|i: int|
                0 <= i < less.len() && (((#[trigger] less[i]).a == a && less[i].b == b) || (
                less[i].a == b && less[i].b == a));
            assert(matches[i] == less[i]);
        }
        if exists|i: int|
            0 <= i < matches.len() && (((#[trigger] matches[i]).a == a && matches[i].b == b) || (
            matches[i].a == b && matches[i].b == a)) {
            let i = choose|i: int|
                0 <= i < matches.len() && (((#[trigger] matches[i]).a == a && matches[i].b == b)
                    || (matches[i].a == b && matches[i].b == a));
            if i < less.len() {
                assert(less[i] == matches[i]);
            }
        }
    }
}

/// The footage a pair shares reads the same from either end.
pub proof fn lemma_shared_footage_is_symmetric(a: Footage, b: Footage)
    ensures
        pair_footage(a, b) is Some <==> pair_footage(b, a) is Some,
        pair_footage(a, b) is Some ==> footage_le(pair_footage(a, b)->0, pair_footage(b, a)->0)
            && footage_le(pair_footage(b, a)->0, pair_footage(a, b)->0),
{
    lemma_footage_total(a, b);
}

/// A file's own matched footage is never less than the figure for the pair, where the
/// file's runtime is known.
pub proof fn lemma_a_row_is_never_below_the_pair(a: Footage, b: Footage)
    requires
        a.runtime.num() > 0,
    ensures
        pair_footage(a, b) is Some,
        footage_le(pair_footage(a, b)->0, a),
{
    lemma_footage_total(a, b);
}

/// What a pair shares is the lower estimate: it is one side's, and no more than either
/// of those whose runtime is known.
pub proof fn lemma_shared_footage_is_the_lower_estimate(a: Footage, b: Footage)
    requires
        a.runtime.num() > 0,
        b.runtime.num() > 0,
    ensures
        pair_footage(a, b) == Some(a) || pair_footage(a, b) == Some(b),
        footage_le(pair_footage(a, b)->0, a),
        footage_le(pair_footage(a, b)->0, b),
{
    lemma_footage_total(a, b);
}

/// Two unknown runtimes leave the shared footage unknown, not zero.
pub proof fn lemma_unknown_runtimes_are_not_zero_footage(a: Footage, b: Footage)
    ensures
        pair_footage(a, b) is None <==> a.runtime.num() == 0 && b.runtime.num() == 0,
{
}

/// The samples of a video follow one another without overlapping.
pub open spec fn is_in_sequence(fp: &VideoFingerprint) -> bool {
    &&& forall|i: int|
        0 <= i < fp.valid_hashes@.len() ==> #[trigger] fp.valid_t_start@[i] <= fp.valid_t_end@[i]
    &&& forall|i: int, j: int|
        0 <= i < j < fp.valid_hashes@.len() ==> #[trigger] fp.valid_t_end@[i]
            <= #[trigger] fp.valid_t_start@[j]
}

/// The matched samples up to one of them lie between the first of them and its end.
proof fn lemma_covered_upto(matched: Seq<bool>, fp: &VideoFingerprint, first: int, n: int)
    requires
        is_timed(fp),
        is_in_sequence(fp),
        matched.len() == fp.valid_hashes@.len(),
        is_first(matched, first),
        0 <= n <= matched.len(),
    ensures
        n <= first ==> covered_upto(matched, fp, n) == 0,
        n > first ==> covered_upto(matched, fp, n) <= fp.valid_t_end@[n - 1]
            - fp.valid_t_start@[first],
    decreases n,
{
    if n > 0 {
        lemma_covered_upto(matched, fp, first, n - 1);
        if n - 1 > first {
            assert(fp.valid_t_end@[n - 2] <= fp.valid_t_start@[n - 1]);
            assert(fp.valid_t_start@[n - 1] <= fp.valid_t_end@[n - 1]);
        } else if n - 1 < first {
            assert(!matched[n - 1]);
        } else {
            assert(fp.valid_t_start@[first] <= fp.valid_t_end@[first]);
        }
    }
}

proof fn lemma_nothing_after(matched: Seq<bool>, fp: &VideoFingerprint, last: int, n: int)
    requires
        is_last(matched, last),
        last < n <= matched.len(),
    ensures
        covered_upto(matched, fp, n) == covered_upto(matched, fp, last + 1),
    decreases n,
{
    if n > last + 1 {
        assert(!matched[n - 1]);
        lemma_nothing_after(matched, fp, last, n - 1);
    }
}

/// The envelope is never narrower than the matched footage inside it.
pub proof fn lemma_the_envelope_holds_the_footage(
    matched: Seq<bool>,
    fp: &VideoFingerprint,
    span: Span,
)
    requires
        is_timed(fp),
        is_in_sequence(fp),
        matched.len() == fp.valid_hashes@.len(),
        is_envelope(matched, fp, Some(span)),
    ensures
        span.start_ms <= span.end_ms,
        covered(matched, fp) <= span.end_ms - span.start_ms,
{
    let (first, last) = choose|first: int, last: int|
        #[trigger] is_first(matched, first) && #[trigger] is_last(matched, last) && span.start_ms
            == fp.valid_t_start@[first] && span.end_ms == fp.valid_t_end@[last];
    lemma_covered_upto(matched, fp, first, last + 1);
    lemma_nothing_after(matched, fp, last, matched.len() as int);
    if last < first {
        assert(matched[last]);
    }
    assert(fp.valid_t_start@[first] <= fp.valid_t_end@[first]);
    if first < last {
        assert(fp.valid_t_end@[first] <= fp.valid_t_start@[last]);
        assert(fp.valid_t_start@[last] <= fp.valid_t_end@[last]);
    }
}

/// A file never reports more matched footage than its own length, nor, where its
/// samples reach at least that far, more than the time its matched samples stand for.
pub proof fn lemma_matched_footage_fits_the_file(ms: nat, fp: &VideoFingerprint, share: Share)
    requires
        is_coverage(ms, fp.total_ms as nat, share),
        fp.duration.num() * 1000 <= fp.total_ms * fp.duration.den(),
        fp.duration.den() > 0,
    ensures
        ({
            let f = Footage { share, runtime: fp.duration };
            &&& footage_num(f) * fp.duration.den() <= fp.duration.num() * footage_den(f)
            &&& footage_num(f) * 1000 <= ms * footage_den(f)
        }),
{
    let f = Footage { share, runtime: fp.duration };
    let p = share.part();
    let w = share.whole();
    let n = fp.duration.num();
    let d = fp.duration.den();
    assert((p * n) * d <= n * (w * d)) by (nonlinear_arith)
        requires
            0 <= p <= w,
            0 <= n,
            0 <= d,
    ;
    if fp.total_ms > 0 {
        assert((p * n) * 1000 <= ms * (w * d)) by (nonlinear_arith)
            requires
                0 <= p <= ms,
                n * 1000 <= w * d,
                0 <= n,
                0 <= w * d,
        ;
    } else {
        assert((p * n) * 1000 <= ms * (w * d)) by (nonlinear_arith)
            requires
                p == 0,
                0 <= ms,
                0 <= w,
                0 <= d,
        ;
    }
}

proof fn lemma_more_marks_cover_more(
    fewer: Seq<bool>,
    more: Seq<bool>,
    fp: &VideoFingerprint,
    n: int,
)
    requires
        fewer.len() == more.len(),
        0 <= n <= fewer.len(),
        forall|i: int| 0 <= i < fewer.len() && #[trigger] fewer[i] ==> more[i],
    ensures
        covered_upto(fewer, fp, n) <= covered_upto(more, fp, n),
    decreases n,
{
    if n > 0 {
        lemma_more_marks_cover_more(fewer, more, fp, n - 1);
        if fewer[n - 1] {
            assert(more[n - 1]);
        }
    }
}

/// Whether one envelope holds another.
pub open spec fn within(inner: Option<Span>, outer: Option<Span>) -> bool {
    inner matches Some(i) ==> (outer matches Some(o) && o.start_ms <= i.start_ms && i.end_ms
        <= o.end_ms)
}

proof fn lemma_more_marks_reach_further(
    fewer: Seq<bool>,
    more: Seq<bool>,
    fp: &VideoFingerprint,
    inner: Option<Span>,
    outer: Option<Span>,
)
    requires
        is_timed(fp),
        is_in_sequence(fp),
        fewer.len() == more.len() == fp.valid_hashes@.len(),
        forall|i: int| 0 <= i < fewer.len() && #[trigger] fewer[i] ==> more[i],
        is_envelope(fewer, fp, inner),
        is_envelope(more, fp, outer),
    ensures
        within(inner, outer),
{
    if let Some(i) = inner {
        let (f, l) = choose|f: int, l: int|
            #[trigger] is_first(fewer, f) && #[trigger] is_last(fewer, l) && i.start_ms
                == fp.valid_t_start@[f] && i.end_ms == fp.valid_t_end@[l];
        assert(fewer[f] && fewer[l]);
        assert(more[f] && more[l]);
        match outer {
            None => {},
            Some(o) => {
                let (g, m) = choose|g: int, m: int|
                    #[trigger] is_first(more, g) && #[trigger] is_last(more, m) && o.start_ms
                        == fp.valid_t_start@[g] && o.end_ms == fp.valid_t_end@[m];
                assert(g <= f);
                assert(l <= m);
                assert(fp.valid_t_start@[g] <= fp.valid_t_end@[g]);
                assert(fp.valid_t_start@[m] <= fp.valid_t_end@[m]);
                if g < f {
                    assert(fp.valid_t_end@[g] <= fp.valid_t_start@[f]);
                }
                if l < m {
                    assert(fp.valid_t_end@[l] <= fp.valid_t_start@[m]);
                }
            },
        }
    }
}

/// Raising the tolerance never makes a pair report less: both coverages only grow, and
/// so do the envelopes of videos whose samples follow one another.
pub proof fn lemma_a_wider_tolerance_reports_no_less(
    a: &VideoFingerprint,
    b: &VideoFingerprint,
    d: nat,
    e: nat,
    o: Overlap,
    p: Overlap,
)
    requires
        is_timed(a),
        is_timed(b),
        d <= e,
        is_overlap(a, b, d, loose_for(d), o),
        is_overlap(a, b, e, loose_for(e), p),
    ensures
        share_le(o.coverage_a, p.coverage_a),
        share_le(o.coverage_b, p.coverage_b),
        is_in_sequence(a) ==> within(o.span_a, p.span_a),
        is_in_sequence(b) ==> within(o.span_b, p.span_b),
{
    let (ma, mb) = choose|ma: Seq<bool>, mb: Seq<bool>|
        #[trigger] is_marking_a(a, b, d, loose_for(d), ma) && #[trigger] is_marking_b(
            a,
            b,
            d,
            loose_for(d),
            mb,
        ) && is_measure(ma, a, o.coverage_a, o.span_a) && is_measure(
            mb,
            b,
            o.coverage_b,
            o.span_b,
        );
    let (na, nb) = choose|na: Seq<bool>, nb: Seq<bool>|
        #[trigger] is_marking_a(a, b, e, loose_for(e), na) && #[trigger] is_marking_b(
            a,
            b,
            e,
            loose_for(e),
            nb,
        ) && is_measure(na, a, p.coverage_a, p.span_a) && is_measure(
            nb,
            b,
            p.coverage_b,
            p.span_b,
        );
    assert forall|i: int| 0 <= i < ma.len() && #[trigger] ma[i] implies na[i] by {
        assert(is_matched_a(a, b, d, loose_for(d), i));
        let j = choose|j: int| #[trigger] is_admitted(a, b, d, loose_for(d), i, j);
        lemma_tolerance_only_admits_more(a, b, d, e, i, j);
        assert(is_matched_a(a, b, e, loose_for(e), i));
    }
    assert forall|j: int| 0 <= j < mb.len() && #[trigger] mb[j] implies nb[j] by {
        assert(is_matched_b(a, b, d, loose_for(d), j));
        let i = choose|i: int| #[trigger] is_admitted(a, b, d, loose_for(d), i, j);
        lemma_tolerance_only_admits_more(a, b, d, e, i, j);
        assert(is_matched_b(a, b, e, loose_for(e), j));
    }
    lemma_more_marks_cover_more(ma, na, a, ma.len() as int);
    lemma_more_marks_cover_more(mb, nb, b, mb.len() as int);
    if is_in_sequence(a) {
        lemma_more_marks_reach_further(ma, na, a, o.span_a, p.span_a);
    }
    if is_in_sequence(b) {
        lemma_more_marks_reach_further(mb, nb, b, o.span_b, p.span_b);
    }
    lemma_shares(o.coverage_a, p.coverage_a);
    lemma_shares(o.coverage_b, p.coverage_b);
}

proof fn lemma_shares(x: Share, y: Share)
    requires
        x.whole() == y.whole(),
        x.part() <= y.part(),
    ensures
        share_le(x, y),
{
    assert(x.part() * y.whole() <= y.part() * x.whole()) by (nonlinear_arith)
        requires
            x.whole() == y.whole(),
            x.part() <= y.part(),
            0 <= x.whole(),
    ;
}

} // verus!
