//! What measuring two videos promises: which of their frames match, how much of each
//! the other covers, where that lies, and which pairs are reported for it.

use crate::bits::lemma_set_bit;
use crate::candidates::Pair;
use crate::compare::{clears, find_all_matches, is_reported, overlap_in, pair_clears, Match};
use crate::evidence::{
    lemma_one_witness_at_the_anchor, loose_for, witness_schedule, witnesses_needed,
};
use crate::fingerprint::VideoFingerprint;
use crate::frames::{
    agreeing, all_rows, distance, frame_distance, frame_offset, frame_row, is_admitted,
    is_matched_a, is_matched_b, is_timed, lemma_rows_upto,
};
use crate::knobs::{is_pair, lemma_a_match_is_what_measuring_gives, reports, Settings};
use crate::matching::{has_matching, is_matching, Edge};
use crate::overlap::{
    coverage_of, covered, covered_upto, is_first, is_last, is_marking_a, is_marking_b, is_measure,
    is_overlap, lemma_one_overlap, Overlap, Share, Span,
};
use crate::quantity::Seconds;
use vstd::prelude::*;

verus! {

/// The samples of a video follow one another, and none reaches past its runtime.
pub open spec fn is_ordered(fp: &VideoFingerprint) -> bool {
    &&& fp.valid_t_start@.len() == fp.valid_t_end@.len()
    &&& forall|i: int|
        0 <= i < fp.valid_t_start@.len() ==> #[trigger] fp.valid_t_start@[i] <= fp.valid_t_end@[i]
            <= fp.total_ms
    &&& forall|i: int|
        0 < i < fp.valid_t_start@.len() ==> fp.valid_t_end@[i - 1] <= #[trigger] fp.valid_t_start@[i]
}

/// The samples of a video cover all of its runtime, without a gap.
pub open spec fn is_gapless(fp: &VideoFingerprint) -> bool {
    let n = fp.valid_t_start@.len();
    &&& n > 0
    &&& fp.valid_t_end@.len() == n
    &&& fp.valid_t_start@[0] == 0
    &&& fp.valid_t_end@[n - 1] == fp.total_ms
    &&& forall|i: int|
        0 <= i < n ==> #[trigger] fp.valid_t_start@[i] <= fp.valid_t_end@[i] <= fp.total_ms
    &&& forall|i: int|
        0 < i < n ==> fp.valid_t_end@[i - 1] == #[trigger] fp.valid_t_start@[i]
}

proof fn lemma_covered_within(matched: Seq<bool>, fp: &VideoFingerprint, n: int)
    requires
        is_ordered(fp),
        0 <= n <= fp.valid_t_start@.len(),
    ensures
        n > 0 ==> covered_upto(matched, fp, n) <= fp.valid_t_end@[n - 1],
        n == 0 ==> covered_upto(matched, fp, n) == 0,
        covered_upto(matched, fp, n) <= fp.total_ms,
    decreases n,
{
    if n > 0 {
        lemma_covered_within(matched, fp, n - 1);
        assert(fp.valid_t_start@[n - 1] <= fp.valid_t_end@[n - 1] <= fp.total_ms);
    }
}

proof fn lemma_covered_differs(
    matched: Seq<bool>,
    more: Seq<bool>,
    fp: &VideoFingerprint,
    i: int,
    n: int,
)
    requires
        is_ordered(fp),
        0 <= i < matched.len(),
        !matched[i],
        more == matched.update(i, true),
        0 <= n <= matched.len(),
        matched.len() == fp.valid_t_start@.len(),
    ensures
        covered_upto(more, fp, n) == covered_upto(matched, fp, n) + if i < n {
            fp.valid_t_end@[i] - fp.valid_t_start@[i]
        } else {
            0
        },
    decreases n,
{
    if n > 0 {
        lemma_covered_differs(matched, more, fp, i, n - 1);
        assert(fp.valid_t_start@[n - 1] <= fp.valid_t_end@[n - 1]);
    }
}

proof fn lemma_covered_all(matched: Seq<bool>, fp: &VideoFingerprint, n: int)
    requires
        is_gapless(fp),
        0 < n <= matched.len() == fp.valid_t_start@.len(),
        forall|i: int| 0 <= i < matched.len() ==> #[trigger] matched[i],
    ensures
        covered_upto(matched, fp, n) == fp.valid_t_end@[n - 1],
    decreases n,
{
    assert(matched[n - 1]);
    assert(fp.valid_t_start@[n - 1] <= fp.valid_t_end@[n - 1]);
    if n > 1 {
        lemma_covered_all(matched, fp, n - 1);
    } else {
        assert(covered_upto(matched, fp, 0) == 0);
    }
}

proof fn lemma_covered_none(matched: Seq<bool>, fp: &VideoFingerprint, n: int)
    requires
        0 <= n <= matched.len(),
        forall|i: int| 0 <= i < matched.len() ==> !#[trigger] matched[i],
    ensures
        covered_upto(matched, fp, n) == 0,
    decreases n,
{
    if n > 0 {
        lemma_covered_none(matched, fp, n - 1);
        assert(!matched[n - 1]);
    }
}

/// A video none of whose samples matched is not covered at all, and no video is covered
/// to more than its runtime.
pub proof fn lemma_nothing_matched_covers_nothing(
    matched: &Vec<bool>,
    fp: &VideoFingerprint,
    share: Share,
)
    requires
        call_ensures(coverage_of, (matched, fp), share),
    ensures
        share.part() <= share.whole(),
        fp.total_ms > 0 ==> share.whole() == fp.total_ms,
        (forall|i: int| 0 <= i < matched@.len() ==> !#[trigger] matched@[i]) ==> share.part() == 0,
{
    if forall|i: int| 0 <= i < matched@.len() ==> !#[trigger] matched@[i] {
        lemma_covered_none(matched@, fp, matched@.len() as int);
    }
}

/// Matching one more sample covers exactly the time from its start to its end more,
/// however long the other samples stand for.
pub proof fn lemma_a_sample_covers_its_own_time(
    matched: &Vec<bool>,
    more: &Vec<bool>,
    fp: &VideoFingerprint,
    i: int,
    before: Share,
    after: Share,
)
    requires
        is_ordered(fp),
        fp.total_ms > 0,
        matched@.len() == fp.valid_t_start@.len(),
        0 <= i < matched@.len(),
        !matched@[i],
        more@ == matched@.update(i, true),
        call_ensures(coverage_of, (matched, fp), before),
        call_ensures(coverage_of, (more, fp), after),
    ensures
        after.whole() == before.whole() == fp.total_ms,
        after.part() == before.part() + fp.valid_t_end@[i] - fp.valid_t_start@[i],
{
    lemma_covered_differs(matched@, more@, fp, i, matched@.len() as int);
    lemma_covered_within(matched@, fp, matched@.len() as int);
    lemma_covered_within(more@, fp, matched@.len() as int);
}

/// A video whose samples cover its runtime without a gap and all matched is covered
/// whole.
pub proof fn lemma_everything_matched_covers_everything(
    matched: &Vec<bool>,
    fp: &VideoFingerprint,
    share: Share,
)
    requires
        is_gapless(fp),
        matched@.len() == fp.valid_t_start@.len(),
        forall|i: int| 0 <= i < matched@.len() ==> #[trigger] matched@[i],
        fp.total_ms > 0,
        call_ensures(coverage_of, (matched, fp), share),
    ensures
        share.part() == share.whole() == fp.total_ms,
{
    lemma_covered_all(matched@, fp, matched@.len() as int);
}

/// A video without a runtime is not covered at all, whatever matched. A sample that ends
/// no later than it starts stands for no time, and samples that together stand for more
/// than the runtime cover it whole, and no more.
pub proof fn lemma_coverage_keeps_to_the_runtime(
    matched: &Vec<bool>,
    fp: &VideoFingerprint,
    share: Share,
    i: int,
)
    requires
        call_ensures(coverage_of, (matched, fp), share),
        0 <= i < matched@.len(),
    ensures
        fp.total_ms == 0 ==> share.part() == 0 && share.whole() > 0,
        fp.total_ms > 0 && matched@[i] && fp.valid_t_end@[i] - fp.valid_t_start@[i] >= fp.total_ms
            ==> share.part() == share.whole() == fp.total_ms,
        (forall|k: int|
            0 <= k < matched@.len() && #[trigger] matched@[k] ==> fp.valid_t_end@[k]
                <= fp.valid_t_start@[k]) ==> share.part() == 0,
{
    lemma_covered_at_least(matched@, fp, i, matched@.len() as int);
    if forall|k: int|
        0 <= k < matched@.len() && #[trigger] matched@[k] ==> fp.valid_t_end@[k]
            <= fp.valid_t_start@[k] {
        lemma_covered_nothing(matched@, fp, matched@.len() as int);
    }
}

proof fn lemma_covered_at_least(matched: Seq<bool>, fp: &VideoFingerprint, i: int, n: int)
    requires
        0 <= i < n <= matched.len(),
    ensures
        matched[i] ==> covered_upto(matched, fp, n) >= fp.valid_t_end@[i] - fp.valid_t_start@[i],
    decreases n,
{
    if i < n - 1 {
        lemma_covered_at_least(matched, fp, i, n - 1);
    }
}

proof fn lemma_covered_nothing(matched: Seq<bool>, fp: &VideoFingerprint, n: int)
    requires
        0 <= n <= matched.len(),
        forall|k: int|
            0 <= k < matched.len() && #[trigger] matched[k] ==> fp.valid_t_end@[k]
                <= fp.valid_t_start@[k],
    ensures
        covered_upto(matched, fp, n) == 0,
    decreases n,
{
    if n > 0 {
        lemma_covered_nothing(matched, fp, n - 1);
    }
}

/// The envelope reaches from the start of a sample that matched to the end of one, and
/// every sample that matched lies between them. There is none where none matched.
pub proof fn lemma_a_span_holds_what_matched(
    matched: &Vec<bool>,
    fp: &VideoFingerprint,
    span: Option<Span>,
)
    requires
        call_ensures(Span::of, (matched, fp), span),
    ensures
        span is None <==> forall|i: int| 0 <= i < matched@.len() ==> !#[trigger] matched@[i],
        span matches Some(s) ==> exists|first: int, last: int|
            0 <= first <= last < matched@.len() && #[trigger] matched@[first] && #[trigger]
                matched@[last] && s.start_ms == fp.valid_t_start@[first] && s.end_ms
                == fp.valid_t_end@[last] && forall|k: int|
                0 <= k < matched@.len() && #[trigger] matched@[k] ==> first <= k <= last,
{
    if let Some(s) = span {
        let (first, last) = choose|first: int, last: int|
            #[trigger] is_first(matched@, first) && #[trigger] is_last(matched@, last) && s.start_ms
                == fp.valid_t_start@[first] && s.end_ms == fp.valid_t_end@[last];
        assert(matched@[first] && matched@[last]);
        assert forall|k: int| 0 <= k < matched@.len() && #[trigger] matched@[k] implies first <= k
            <= last by {}
    }
}

/// A hash is no distance from itself.
pub proof fn lemma_a_hash_is_no_distance_from_itself(a: u64)
    ensures
        distance(a, a) == 0,
{
    assert(a ^ a == 0) by (bit_vector);
}

/// Two hashes are as far apart one way as the other.
pub proof fn lemma_a_distance_reads_both_ways(a: u64, b: u64)
    ensures
        distance(a, b) == distance(b, a),
{
    assert(a ^ b == b ^ a) by (bit_vector);
}

/// Flipping a bit that two hashes agree in puts them one further apart.
pub proof fn lemma_a_flipped_bit_is_one_of_distance(a: u64, b: u64, w: u64)
    requires
        w < 64,
        (a >> w) & 1 == (b >> w) & 1,
    ensures
        distance(a, b ^ (1u64 << w)) == distance(a, b) + 1,
{
    let x = a ^ b;
    assert(a ^ (b ^ (1u64 << w)) == x | (1u64 << w) && (x >> w) & 1 != 1) by (bit_vector)
        requires
            w < 64,
            x == a ^ b,
            (a >> w) & 1 == (b >> w) & 1,
    ;
    lemma_set_bit(x, w);
}

/// Frames within the tolerance of each other match, whatever else the videos hold.
pub proof fn lemma_close_frames_match(
    a: &VideoFingerprint,
    b: &VideoFingerprint,
    strict: nat,
    loose: nat,
    of_a: Seq<bool>,
    of_b: Seq<bool>,
    i: int,
    j: int,
)
    requires
        is_marking_a(a, b, strict, loose, of_a),
        is_marking_b(a, b, strict, loose, of_b),
        0 <= i < a.valid_hashes@.len(),
        0 <= j < b.valid_hashes@.len(),
        distance(a.valid_hashes@[i], b.valid_hashes@[j]) <= strict,
    ensures
        of_a[i],
        of_b[j],
{
    assert(is_admitted(a, b, strict, loose, i, j));
}

/// A frame that none of the other video's is within reach of does not match.
pub proof fn lemma_a_frame_out_of_reach_does_not_match(
    a: &VideoFingerprint,
    b: &VideoFingerprint,
    strict: nat,
    loose: nat,
    of_a: Seq<bool>,
    i: int,
)
    requires
        strict <= loose,
        is_marking_a(a, b, strict, loose, of_a),
        0 <= i < a.valid_hashes@.len(),
        forall|j: int|
            0 <= j < b.valid_hashes@.len() ==> distance(
                a.valid_hashes@[i],
                #[trigger] b.valid_hashes@[j],
            ) > loose,
    ensures
        !of_a[i],
{
    if of_a[i] {
        let j = choose|j: int| #[trigger] is_admitted(a, b, strict, loose, i, j);
        assert(distance(a.valid_hashes@[i], b.valid_hashes@[j]) > loose);
    }
}

/// Whether two pairs of frames agree: they share none, both are within `loose`, and they
/// place the videos within half a second of each other.
pub open spec fn agree(
    a: &VideoFingerprint,
    b: &VideoFingerprint,
    loose: nat,
    i: int,
    j: int,
    k: int,
    l: int,
) -> bool {
    &&& 0 <= k < a.valid_hashes@.len()
    &&& 0 <= l < b.valid_hashes@.len()
    &&& k != i
    &&& l != j
    &&& distance(a.valid_hashes@[k], b.valid_hashes@[l]) <= loose
    &&& -500 <= (a.valid_t_start@[k] - b.valid_t_start@[l]) - (a.valid_t_start@[i]
        - b.valid_t_start@[j]) <= 500
}

/// A pair of frames that agrees is among those that vouch for the other.
proof fn lemma_vouches(
    a: &VideoFingerprint,
    b: &VideoFingerprint,
    loose: nat,
    i: int,
    j: int,
    k: int,
    l: int,
)
    requires
        is_timed(a),
        is_timed(b),
        0 <= i < a.valid_hashes@.len(),
        0 <= j < b.valid_hashes@.len(),
        0 <= k < a.valid_hashes@.len(),
        0 <= l < b.valid_hashes@.len(),
    ensures
        agreeing(
            all_rows(a, b, loose),
            frame_row(a, b, i, j).0 as int,
            i as u32,
            j as u32,
        ).contains((k as u32, l as u32)) <==> agree(a, b, loose, i, j, k, l),
{
    let rows = all_rows(a, b, loose);
    let offset = frame_row(a, b, i, j).0 as int;
    lemma_rows_upto(a, b, loose, a.valid_hashes@.len() as int);
    assert(offset == frame_offset(a, b, i, j));
    if agree(a, b, loose, i, j, k, l) {
        assert(frame_distance(a, b, k, l) <= loose);
        assert(rows.contains(frame_row(a, b, k, l)));
        let r = choose|r: int| 0 <= r < rows.len() && rows[r] == frame_row(a, b, k, l);
        assert(rows[r].1 == k as u32 && rows[r].2 == l as u32);
    }
    if agreeing(rows, offset, i as u32, j as u32).contains((k as u32, l as u32)) {
        let r = choose|r: int|
            0 <= r < rows.len() && (#[trigger] rows[r]).1 == k as u32 && rows[r].2 == l as u32
                && -500 <= rows[r].0 - offset <= 500;
        assert(rows[r] == frame_row(a, b, k, l));
    }
}

/// Two pairs of frames vouch for each other: out to twelve bits apart, and within reach,
/// each of two that agree about where the videos lie is a match.
pub proof fn lemma_frames_vouch_for_each_other(
    a: &VideoFingerprint,
    b: &VideoFingerprint,
    strict: nat,
    loose: nat,
    of_a: Seq<bool>,
    of_b: Seq<bool>,
    i: int,
    j: int,
    k: int,
    l: int,
)
    requires
        is_timed(a),
        is_timed(b),
        is_marking_a(a, b, strict, loose, of_a),
        is_marking_b(a, b, strict, loose, of_b),
        0 <= i < a.valid_hashes@.len(),
        0 <= j < b.valid_hashes@.len(),
        distance(a.valid_hashes@[i], b.valid_hashes@[j]) <= loose,
        distance(a.valid_hashes@[i], b.valid_hashes@[j]) <= 12,
        agree(a, b, loose, i, j, k, l),
    ensures
        of_a[i],
        of_b[j],
{
    let d = distance(a.valid_hashes@[i], b.valid_hashes@[j]);
    let row = frame_row(a, b, i, j);
    lemma_one_witness_at_the_anchor(d);
    lemma_vouches(a, b, loose, i, j, k, l);
    let g = agreeing(all_rows(a, b, loose), row.0 as int, row.1, row.2);
    let m = seq![(k as u32, l as u32)];
    assert(is_matching(g, m));
    assert(m.len() == 1);
    assert(has_matching(g, 1));
    assert(row.3 as nat == d);
    assert(is_admitted(a, b, strict, loose, i, j));
}

/// A frame whose nearest in the other video are beyond the tolerance, and which no other
/// pair of frames vouches for, does not match.
pub proof fn lemma_a_coincidence_does_not_match(
    a: &VideoFingerprint,
    b: &VideoFingerprint,
    strict: nat,
    loose: nat,
    of_a: Seq<bool>,
    i: int,
)
    requires
        is_timed(a),
        is_timed(b),
        is_marking_a(a, b, strict, loose, of_a),
        0 <= i < a.valid_hashes@.len(),
        forall|j: int|
            0 <= j < b.valid_hashes@.len() ==> distance(
                a.valid_hashes@[i],
                #[trigger] b.valid_hashes@[j],
            ) > strict,
        forall|j: int, k: int, l: int|
            0 <= j < b.valid_hashes@.len() ==> !#[trigger] agree(a, b, loose, i, j, k, l),
    ensures
        !of_a[i],
{
    if of_a[i] {
        let j = choose|j: int| #[trigger] is_admitted(a, b, strict, loose, i, j);
        assert(distance(a.valid_hashes@[i], b.valid_hashes@[j]) > strict);
        let row = frame_row(a, b, i, j);
        let g = agreeing(all_rows(a, b, loose), row.0 as int, row.1, row.2);
        crate::evidence::lemma_witnesses_needed(row.3 as nat);
        let n = witnesses_needed(row.3 as nat) as nat;
        let m = choose|m: Seq<Edge>| #[trigger] is_matching(g, m) && m.len() == n;
        assert(g.contains(m[0]));
        let rows = all_rows(a, b, loose);
        let r = choose|r: int|
            0 <= r < rows.len() && (#[trigger] rows[r]).1 == m[0].0 && rows[r].2 == m[0].1 && -500
                <= rows[r].0 - row.0 <= 500;
        lemma_rows_upto(a, b, loose, a.valid_hashes@.len() as int);
        lemma_vouches(a, b, loose, i, j, m[0].0 as int, m[0].1 as int);
        assert(agree(a, b, loose, i, j, m[0].0 as int, m[0].1 as int));
    }
}

/// Whether some pairs of frames vouch for one: each agrees with it, and no two of them
/// share a frame of either video.
pub open spec fn are_witnesses(
    a: &VideoFingerprint,
    b: &VideoFingerprint,
    loose: nat,
    i: int,
    j: int,
    pairs: Seq<(int, int)>,
) -> bool {
    &&& forall|k: int|
        0 <= k < pairs.len() ==> agree(a, b, loose, i, j, (#[trigger] pairs[k]).0, pairs[k].1)
    &&& forall|k: int, l: int|
        0 <= k < l < pairs.len() ==> (#[trigger] pairs[k]).0 != (#[trigger] pairs[l]).0 && pairs[k].1
            != pairs[l].1
}

/// Whether a pair of frames has so many witnesses.
pub open spec fn has_witnesses(
    a: &VideoFingerprint,
    b: &VideoFingerprint,
    loose: nat,
    i: int,
    j: int,
    n: nat,
) -> bool {
    exists|pairs: Seq<(int, int)>| #[trigger]
        are_witnesses(a, b, loose, i, j, pairs) && pairs.len() == n
}

proof fn lemma_witnesses(
    a: &VideoFingerprint,
    b: &VideoFingerprint,
    loose: nat,
    i: int,
    j: int,
    n: nat,
)
    requires
        is_timed(a),
        is_timed(b),
        0 <= i < a.valid_hashes@.len(),
        0 <= j < b.valid_hashes@.len(),
    ensures
        has_matching(
            agreeing(all_rows(a, b, loose), frame_row(a, b, i, j).0 as int, i as u32, j as u32),
            n,
        ) <==> has_witnesses(a, b, loose, i, j, n),
{
    let rows = all_rows(a, b, loose);
    let offset = frame_row(a, b, i, j).0 as int;
    let g = agreeing(rows, offset, i as u32, j as u32);
    if has_witnesses(a, b, loose, i, j, n) {
        let pairs = choose|pairs: Seq<(int, int)>| #[trigger]
            are_witnesses(a, b, loose, i, j, pairs) && pairs.len() == n;
        let m = Seq::new(pairs.len(), |k: int| (pairs[k].0 as u32, pairs[k].1 as u32));
        assert forall|k: int| 0 <= k < m.len() implies g.contains(#[trigger] m[k]) by {
            assert(agree(a, b, loose, i, j, pairs[k].0, pairs[k].1));
            lemma_vouches(a, b, loose, i, j, pairs[k].0, pairs[k].1);
        }
        assert forall|k: int, l: int|
            0 <= k < m.len() && 0 <= l < m.len() && k != l implies (#[trigger] m[k]).0 != (
        #[trigger] m[l]).0 && m[k].1 != m[l].1 by {
            assert(agree(a, b, loose, i, j, pairs[k].0, pairs[k].1));
            assert(agree(a, b, loose, i, j, pairs[l].0, pairs[l].1));
            if k < l {
                assert(pairs[k].0 != pairs[l].0);
            } else {
                assert(pairs[l].0 != pairs[k].0);
            }
        }
        assert(is_matching(g, m));
    }
    if has_matching(g, n) {
        let m = choose|m: Seq<Edge>| #[trigger] is_matching(g, m) && m.len() == n;
        let pairs = Seq::new(m.len(), |k: int| (m[k].0 as int, m[k].1 as int));
        assert forall|k: int| 0 <= k < pairs.len() implies agree(
            a,
            b,
            loose,
            i,
            j,
            (#[trigger] pairs[k]).0,
            pairs[k].1,
        ) by {
            let e = m[k];
            assert(g.contains(e));
            let r = choose|r: int|
                0 <= r < rows.len() && (#[trigger] rows[r]).1 == e.0 && rows[r].2 == e.1 && -500
                    <= rows[r].0 - offset <= 500;
            lemma_rows_upto(a, b, loose, a.valid_hashes@.len() as int);
            lemma_vouches(a, b, loose, i, j, e.0 as int, e.1 as int);
        }
        assert(are_witnesses(a, b, loose, i, j, pairs));
    }
}

proof fn lemma_admitted(
    a: &VideoFingerprint,
    b: &VideoFingerprint,
    strict: nat,
    loose: nat,
    i: int,
    j: int,
)
    requires
        is_timed(a),
        is_timed(b),
        0 <= i < a.valid_hashes@.len(),
        0 <= j < b.valid_hashes@.len(),
    ensures
        ({
            let d = distance(a.valid_hashes@[i], b.valid_hashes@[j]);
            is_admitted(a, b, strict, loose, i, j) <==> d <= strict || (d <= loose
                && witnesses_needed(d) < u32::MAX && has_witnesses(
                a,
                b,
                loose,
                i,
                j,
                witnesses_needed(d) as nat,
            ))
        }),
{
    let d = distance(a.valid_hashes@[i], b.valid_hashes@[j]);
    crate::frames::lemma_ones_bound(a.valid_hashes@[i] ^ b.valid_hashes@[j]);
    assert(frame_row(a, b, i, j).3 as nat == d);
    lemma_witnesses(a, b, loose, i, j, witnesses_needed(d) as nat);
}

/// A frame of one video matches a frame of the other where they are within the tolerance
/// of each other; or within reach, and as many other pairs of frames as a distance such as
/// theirs needs agree with them about where the videos lie, no two sharing a frame. A
/// frame matches where it matches any.
pub proof fn lemma_what_admits_a_frame(
    a: &VideoFingerprint,
    b: &VideoFingerprint,
    strict: nat,
    loose: nat,
    of_a: Seq<bool>,
    of_b: Seq<bool>,
    schedule: Vec<u32>,
    i: int,
    j: int,
)
    requires
        is_timed(a),
        is_timed(b),
        is_marking_a(a, b, strict, loose, of_a),
        is_marking_b(a, b, strict, loose, of_b),
        call_ensures(witness_schedule, (), schedule),
        0 <= i < a.valid_hashes@.len(),
        0 <= j < b.valid_hashes@.len(),
    ensures
        of_a[i] <==> exists|y: int| #[trigger]
            is_taken(a, b, strict, loose, schedule@, i, y),
        of_b[j] <==> exists|x: int| #[trigger]
            is_taken(a, b, strict, loose, schedule@, x, j),
{
    assert forall|x: int, y: int|
        #![trigger is_taken(a, b, strict, loose, schedule@, x, y)]
        #![trigger is_admitted(a, b, strict, loose, x, y)]
        is_taken(a, b, strict, loose, schedule@, x, y) == is_admitted(a, b, strict, loose, x, y) by {
        if 0 <= x < a.valid_hashes@.len() && 0 <= y < b.valid_hashes@.len() {
            lemma_admitted(a, b, strict, loose, x, y);
            let d = distance(a.valid_hashes@[x], b.valid_hashes@[y]);
            crate::frames::lemma_ones_bound(a.valid_hashes@[x] ^ b.valid_hashes@[y]);
            assert(schedule@[d as int] == witnesses_needed(d));
        }
    }
    if of_a[i] {
        let y = choose|y: int| #[trigger] is_admitted(a, b, strict, loose, i, y);
        assert(is_taken(a, b, strict, loose, schedule@, i, y));
    }
    if of_b[j] {
        let x = choose|x: int| #[trigger] is_admitted(a, b, strict, loose, x, j);
        assert(is_taken(a, b, strict, loose, schedule@, x, j));
    }
}

/// Whether two frames match, by how many witnesses each distance needs.
pub open spec fn is_taken(
    a: &VideoFingerprint,
    b: &VideoFingerprint,
    strict: nat,
    loose: nat,
    schedule: Seq<u32>,
    i: int,
    j: int,
) -> bool {
    &&& 0 <= i < a.valid_hashes@.len()
    &&& 0 <= j < b.valid_hashes@.len()
    &&& {
        let d = distance(a.valid_hashes@[i], b.valid_hashes@[j]);
        d <= strict || (d <= loose && schedule[d as int] < u32::MAX && has_witnesses(
            a,
            b,
            loose,
            i,
            j,
            schedule[d as int] as nat,
        ))
    }
}

proof fn lemma_witnesses_swap(
    a: &VideoFingerprint,
    b: &VideoFingerprint,
    loose: nat,
    i: int,
    j: int,
    n: nat,
)
    requires
        has_witnesses(a, b, loose, i, j, n),
    ensures
        has_witnesses(b, a, loose, j, i, n),
{
    let pairs = choose|pairs: Seq<(int, int)>| #[trigger]
        are_witnesses(a, b, loose, i, j, pairs) && pairs.len() == n;
    let turned = Seq::new(pairs.len(), |k: int| (pairs[k].1, pairs[k].0));
    assert forall|k: int| 0 <= k < turned.len() implies agree(
        b,
        a,
        loose,
        j,
        i,
        (#[trigger] turned[k]).0,
        turned[k].1,
    ) by {
        let (x, y) = pairs[k];
        assert(agree(a, b, loose, i, j, pairs[k].0, pairs[k].1));
        lemma_a_distance_reads_both_ways(a.valid_hashes@[x], b.valid_hashes@[y]);
    }
    assert forall|k: int, l: int| 0 <= k < l < turned.len() implies (#[trigger] turned[k]).0 != (
    #[trigger] turned[l]).0 && turned[k].1 != turned[l].1 by {
        assert(pairs[k].0 != pairs[l].0 && pairs[k].1 != pairs[l].1);
    }
    assert(are_witnesses(b, a, loose, j, i, turned));
}

proof fn lemma_admitted_swap(
    a: &VideoFingerprint,
    b: &VideoFingerprint,
    strict: nat,
    loose: nat,
    i: int,
    j: int,
)
    requires
        is_timed(a),
        is_timed(b),
        is_admitted(a, b, strict, loose, i, j),
    ensures
        is_admitted(b, a, strict, loose, j, i),
{
    lemma_admitted(a, b, strict, loose, i, j);
    lemma_admitted(b, a, strict, loose, j, i);
    lemma_a_distance_reads_both_ways(a.valid_hashes@[i], b.valid_hashes@[j]);
    let d = distance(a.valid_hashes@[i], b.valid_hashes@[j]);
    if has_witnesses(a, b, loose, i, j, witnesses_needed(d) as nat) {
        lemma_witnesses_swap(a, b, loose, i, j, witnesses_needed(d) as nat);
    }
}

/// What two videos have in common is the same whichever of them comes first: what was
/// said of one side is then said of the other.
pub proof fn lemma_either_video_may_come_first(
    a: &VideoFingerprint,
    b: &VideoFingerprint,
    strict: nat,
    loose: nat,
    o: Overlap,
    turned: Overlap,
)
    requires
        is_timed(a),
        is_timed(b),
        is_overlap(a, b, strict, loose, o),
        is_overlap(b, a, strict, loose, turned),
    ensures
        turned.coverage_a.part() == o.coverage_b.part(),
        turned.coverage_a.whole() == o.coverage_b.whole(),
        turned.coverage_b.part() == o.coverage_a.part(),
        turned.coverage_b.whole() == o.coverage_a.whole(),
        turned.span_a == o.span_b,
        turned.span_b == o.span_a,
{
    let (ma, mb) = choose|ma: Seq<bool>, mb: Seq<bool>|
        #[trigger] is_marking_a(a, b, strict, loose, ma) && #[trigger] is_marking_b(
            a,
            b,
            strict,
            loose,
            mb,
        ) && is_measure(ma, a, o.coverage_a, o.span_a) && is_measure(
            mb,
            b,
            o.coverage_b,
            o.span_b,
        );
    assert(is_marking_a(b, a, strict, loose, mb)) by {
        assert forall|j: int| 0 <= j < mb.len() implies (#[trigger] mb[j] <==> is_matched_a(
            b,
            a,
            strict,
            loose,
            j,
        )) by {
            if mb[j] {
                let i = choose|i: int| #[trigger] is_admitted(a, b, strict, loose, i, j);
                lemma_admitted_swap(a, b, strict, loose, i, j);
            }
            if is_matched_a(b, a, strict, loose, j) {
                let i = choose|i: int| #[trigger] is_admitted(b, a, strict, loose, j, i);
                lemma_admitted_swap(b, a, strict, loose, j, i);
            }
        }
    }
    assert(is_marking_b(b, a, strict, loose, ma)) by {
        assert forall|i: int| 0 <= i < ma.len() implies (#[trigger] ma[i] <==> is_matched_b(
            b,
            a,
            strict,
            loose,
            i,
        )) by {
            if ma[i] {
                let j = choose|j: int| #[trigger] is_admitted(a, b, strict, loose, i, j);
                lemma_admitted_swap(a, b, strict, loose, i, j);
            }
            if is_matched_b(b, a, strict, loose, i) {
                let j = choose|j: int| #[trigger] is_admitted(b, a, strict, loose, j, i);
                lemma_admitted_swap(b, a, strict, loose, j, i);
            }
        }
    }
    let other = Overlap {
        coverage_a: o.coverage_b,
        coverage_b: o.coverage_a,
        span_a: o.span_b,
        span_b: o.span_a,
    };
    assert(is_overlap(b, a, strict, loose, other));
    lemma_one_overlap(b, a, strict, loose, other, turned);
}

/// A clip that was cut out of another video is covered whole: where every one of its
/// frames is within the tolerance of one of the other's, all of its runtime is.
pub proof fn lemma_a_clip_is_covered_whole(
    clip: &VideoFingerprint,
    host: &VideoFingerprint,
    strict: nat,
    loose: nat,
    o: Overlap,
)
    requires
        is_overlap(clip, host, strict, loose, o),
        is_timed(clip),
        is_gapless(clip),
        clip.total_ms > 0,
        forall|i: int|
            0 <= i < clip.valid_hashes@.len() ==> exists|j: int|
                0 <= j < host.valid_hashes@.len() && distance(
                    #[trigger] clip.valid_hashes@[i],
                    #[trigger] host.valid_hashes@[j],
                ) <= strict,
    ensures
        o.coverage_a.part() == o.coverage_a.whole() == clip.total_ms,
        o.span_a == Some(Span { start_ms: 0, end_ms: clip.total_ms }),
{
    let (ma, mb) = choose|ma: Seq<bool>, mb: Seq<bool>|
        #[trigger] is_marking_a(clip, host, strict, loose, ma) && #[trigger] is_marking_b(
            clip,
            host,
            strict,
            loose,
            mb,
        ) && is_measure(ma, clip, o.coverage_a, o.span_a) && is_measure(
            mb,
            host,
            o.coverage_b,
            o.span_b,
        );
    assert forall|i: int| 0 <= i < ma.len() implies #[trigger] ma[i] by {
        let j = choose|j: int|
            0 <= j < host.valid_hashes@.len() && distance(
                clip.valid_hashes@[i],
                #[trigger] host.valid_hashes@[j],
            ) <= strict;
        lemma_close_frames_match(clip, host, strict, loose, ma, mb, i, j);
    }
    let n = ma.len() as int;
    lemma_covered_all(ma, clip, n);
    assert(ma[0] && ma[n - 1]);
    match o.span_a {
        None => {},
        Some(s) => {
            let (first, last) = choose|first: int, last: int|
                #[trigger] is_first(ma, first) && #[trigger] is_last(ma, last) && s.start_ms
                    == clip.valid_t_start@[first] && s.end_ms == clip.valid_t_end@[last];
            assert(first == 0);
            assert(last == n - 1);
        },
    }
}

/// The host of a clip is covered to what the clip lasts: where one frame alone is within
/// reach of the other video's, and within the tolerance, it is covered for the time that
/// frame stands for, and the envelope is that frame's.
pub proof fn lemma_one_shared_frame_covers_its_own_time(
    a: &VideoFingerprint,
    b: &VideoFingerprint,
    strict: nat,
    loose: nat,
    o: Overlap,
    i: int,
)
    requires
        is_overlap(a, b, strict, loose, o),
        is_timed(a),
        is_ordered(a),
        a.total_ms > 0,
        strict <= loose,
        0 <= i < a.valid_hashes@.len(),
        exists|j: int|
            0 <= j < b.valid_hashes@.len() && distance(
                a.valid_hashes@[i],
                #[trigger] b.valid_hashes@[j],
            ) <= strict,
        forall|k: int, j: int|
            0 <= k < a.valid_hashes@.len() && k != i && 0 <= j < b.valid_hashes@.len() ==> distance(
                #[trigger] a.valid_hashes@[k],
                #[trigger] b.valid_hashes@[j],
            ) > loose,
    ensures
        o.coverage_a.whole() == a.total_ms,
        o.coverage_a.part() == a.valid_t_end@[i] - a.valid_t_start@[i],
        o.span_a == Some(Span { start_ms: a.valid_t_start@[i], end_ms: a.valid_t_end@[i] }),
{
    let (ma, mb) = choose|ma: Seq<bool>, mb: Seq<bool>|
        #[trigger] is_marking_a(a, b, strict, loose, ma) && #[trigger] is_marking_b(
            a,
            b,
            strict,
            loose,
            mb,
        ) && is_measure(ma, a, o.coverage_a, o.span_a) && is_measure(
            mb,
            b,
            o.coverage_b,
            o.span_b,
        );
    let j = choose|j: int|
        0 <= j < b.valid_hashes@.len() && distance(
            a.valid_hashes@[i],
            #[trigger] b.valid_hashes@[j],
        ) <= strict;
    lemma_close_frames_match(a, b, strict, loose, ma, mb, i, j);
    assert forall|k: int| 0 <= k < ma.len() && k != i implies !#[trigger] ma[k] by {
        lemma_a_frame_out_of_reach_does_not_match(a, b, strict, loose, ma, k);
    }
    let none = Seq::new(ma.len(), |k: int| false);
    let n = ma.len() as int;
    lemma_covered_none(none, a, n);
    assert(ma =~= none.update(i, true));
    lemma_covered_differs(none, ma, a, i, n);
    lemma_covered_within(ma, a, n);
    match o.span_a {
        None => {
            assert(ma[i]);
        },
        Some(s) => {
            let (first, last) = choose|first: int, last: int|
                #[trigger] is_first(ma, first) && #[trigger] is_last(ma, last) && s.start_ms
                    == a.valid_t_start@[first] && s.end_ms == a.valid_t_end@[last];
            assert(first == i && last == i);
        },
    }
}

/// Videos none of whose frames are within reach of each other have nothing in common.
pub proof fn lemma_unrelated_videos_share_nothing(
    a: &VideoFingerprint,
    b: &VideoFingerprint,
    strict: nat,
    loose: nat,
    o: Overlap,
)
    requires
        is_overlap(a, b, strict, loose, o),
        strict <= loose,
        forall|i: int, j: int|
            0 <= i < a.valid_hashes@.len() && 0 <= j < b.valid_hashes@.len() ==> distance(
                #[trigger] a.valid_hashes@[i],
                #[trigger] b.valid_hashes@[j],
            ) > loose,
    ensures
        o.coverage_a.part() == 0,
        o.coverage_b.part() == 0,
        o.span_a is None,
        o.span_b is None,
{
    let (ma, mb) = choose|ma: Seq<bool>, mb: Seq<bool>|
        #[trigger] is_marking_a(a, b, strict, loose, ma) && #[trigger] is_marking_b(
            a,
            b,
            strict,
            loose,
            mb,
        ) && is_measure(ma, a, o.coverage_a, o.span_a) && is_measure(
            mb,
            b,
            o.coverage_b,
            o.span_b,
        );
    assert forall|i: int| 0 <= i < ma.len() implies !#[trigger] ma[i] by {
        if ma[i] {
            let j = choose|j: int| #[trigger] is_admitted(a, b, strict, loose, i, j);
            assert(distance(a.valid_hashes@[i], b.valid_hashes@[j]) > loose);
        }
    }
    assert forall|j: int| 0 <= j < mb.len() implies !#[trigger] mb[j] by {
        if mb[j] {
            let i = choose|i: int| #[trigger] is_admitted(a, b, strict, loose, i, j);
            assert(distance(a.valid_hashes@[i], b.valid_hashes@[j]) > loose);
        }
    }
    lemma_covered_none(ma, a, ma.len() as int);
    lemma_covered_none(mb, b, mb.len() as int);
}

/// The frames two videos may differ in and still vouch for each other: six bits more
/// than the tolerance, and never more than a hash has.
pub proof fn lemma_reach_is_six_bits_past_the_tolerance(d: nat)
    ensures
        d <= 58 ==> loose_for(d) == d + 6,
        d > 58 ==> loose_for(d) == 64,
{
}

/// Whether a pair is in a list of matches.
pub open spec fn is_in(matches: Seq<Match>, a: usize, b: usize) -> bool {
    exists|i: int| 0 <= i < matches.len() && (#[trigger] matches[i]).a == a && matches[i].b == b
}

/// Whether a search that nothing stops reports a pair is what measuring the pair says.
proof fn lemma_searched<F>(
    fps: &[VideoFingerprint],
    d: u32,
    percent: Share,
    duration: Seconds,
    stop: &F,
    matches: Vec<Match>,
    a: usize,
    b: usize,
    o: Overlap,
) where F: Fn() -> bool
    requires
        call_ensures(find_all_matches::<F>, (fps, d, percent, duration, stop), matches),
        !stop.ensures((), true),
        a < b < fps@.len(),
        is_overlap(
            &fps@[a as int],
            &fps@[b as int],
            d as nat,
            if d <= 58 {
                (d + 6) as nat
            } else {
                64
            },
            o,
        ),
    ensures
        is_in(matches@, a, b) <==> clears(
            o,
            fps@[a as int].duration,
            fps@[b as int].duration,
            percent,
            duration,
        ),
{
    lemma_reach_is_six_bits_past_the_tolerance(d as nat);
    let loose = loose_for(d as nat);
    let p: Pair = (a, b);
    assert(is_reported(matches@, p) <==> is_in(matches@, a, b));
    assert(is_reported(matches@, p) <==> p.0 < p.1 < fps@.len() && pair_clears(
        fps@,
        p,
        d as nat,
        loose,
        percent,
        duration,
    ));
    let s = Settings { distance: d, percent, duration };
    assert(reports(fps@, s, matches@)) by {
        assert forall|q: Pair| #[trigger]
            is_reported(matches@, q) <==> is_pair(fps@, q, s) by {}
    }
    lemma_a_match_is_what_measuring_gives(fps@, s, matches@, p, o);
}

/// Without a floor in seconds, a pair that shares something is reported wherever either
/// of its videos is covered to the percentage asked for, however little of the other is,
/// and only there.
pub proof fn lemma_either_coverage_is_enough<F>(
    fps: &[VideoFingerprint],
    d: u32,
    percent: Share,
    duration: Seconds,
    stop: &F,
    matches: Vec<Match>,
    a: usize,
    b: usize,
    o: Overlap,
) where F: Fn() -> bool
    requires
        call_ensures(find_all_matches::<F>, (fps, d, percent, duration, stop), matches),
        !stop.ensures((), true),
        duration.num() == 0,
        a < b < fps@.len(),
        is_overlap(
            &fps@[a as int],
            &fps@[b as int],
            d as nat,
            if d <= 58 {
                (d + 6) as nat
            } else {
                64
            },
            o,
        ),
    ensures
        is_in(matches@, a, b) <==> (o.coverage_a.part() > 0 || o.coverage_b.part() > 0) && (
        percent.part() * o.coverage_a.whole() <= o.coverage_a.part() * percent.whole()
            || percent.part() * o.coverage_b.whole() <= o.coverage_b.part() * percent.whole()),
{
    lemma_searched(fps, d, percent, duration, stop, matches, a, b, o);
}

/// A video all of whose runtime another one has is reported with it, at every percentage
/// there is to ask for, whichever of the two comes first.
pub proof fn lemma_a_video_inside_another_is_reported<F>(
    fps: &[VideoFingerprint],
    d: u32,
    percent: Share,
    duration: Seconds,
    stop: &F,
    matches: Vec<Match>,
    a: usize,
    b: usize,
    o: Overlap,
) where F: Fn() -> bool
    requires
        call_ensures(find_all_matches::<F>, (fps, d, percent, duration, stop), matches),
        !stop.ensures((), true),
        duration.num() == 0,
        percent.part() <= percent.whole(),
        a < b < fps@.len(),
        is_overlap(
            &fps@[a as int],
            &fps@[b as int],
            d as nat,
            if d <= 58 {
                (d + 6) as nat
            } else {
                64
            },
            o,
        ),
        o.coverage_a.part() == o.coverage_a.whole() > 0 || o.coverage_b.part()
            == o.coverage_b.whole() > 0,
    ensures
        is_in(matches@, a, b),
{
    lemma_either_coverage_is_enough(fps, d, percent, duration, stop, matches, a, b, o);
    let (p, w) = (percent.part(), percent.whole());
    if o.coverage_a.part() == o.coverage_a.whole() {
        let c = o.coverage_a.whole();
        assert(p * c <= c * w) by (nonlinear_arith)
            requires
                p <= w,
        ;
    } else {
        let c = o.coverage_b.whole();
        assert(p * c <= c * w) by (nonlinear_arith)
            requires
                p <= w,
        ;
    }
}

/// Whether what a video shares lasts at least as long as a floor: its share of its
/// runtime, in seconds.
pub open spec fn is_at_least(share: Share, runtime: Seconds, floor: Seconds) -> bool {
    floor.num() * (share.whole() * runtime.den()) <= (share.part() * runtime.num()) * floor.den()
}

proof fn lemma_the_longer_lasts_too(n: nat, d: nat, an: nat, ad: nat, bn: nat, bd: nat)
    requires
        an * bd <= bn * ad,
        n * ad <= an * d,
        ad > 0,
        d > 0,
    ensures
        n * bd <= bn * d,
{
    assert(n * bd <= bn * d) by (nonlinear_arith)
        requires
            an * bd <= bn * ad,
            n * ad <= an * d,
            ad > 0,
            d > 0,
    ;
}

/// With a floor in seconds, a pair is reported where it would be without one and what it
/// shares lasts that long in every file whose runtime is known. A pair neither of whose
/// runtimes is known is not reported.
pub proof fn lemma_a_floor_holds_of_every_known_runtime<F>(
    fps: &[VideoFingerprint],
    d: u32,
    percent: Share,
    duration: Seconds,
    stop: &F,
    matches: Vec<Match>,
    a: usize,
    b: usize,
    o: Overlap,
) where F: Fn() -> bool
    requires
        call_ensures(find_all_matches::<F>, (fps, d, percent, duration, stop), matches),
        !stop.ensures((), true),
        duration.num() > 0,
        duration.den() > 0,
        a < b < fps@.len(),
        fps@[a as int].duration.den() > 0,
        fps@[b as int].duration.den() > 0,
        is_overlap(
            &fps@[a as int],
            &fps@[b as int],
            d as nat,
            if d <= 58 {
                (d + 6) as nat
            } else {
                64
            },
            o,
        ),
    ensures
        is_in(matches@, a, b) <==> {
            &&& o.coverage_a.part() > 0 || o.coverage_b.part() > 0
            &&& percent.part() * o.coverage_a.whole() <= o.coverage_a.part() * percent.whole()
                || percent.part() * o.coverage_b.whole() <= o.coverage_b.part() * percent.whole()
            &&& fps@[a as int].duration.num() > 0 || fps@[b as int].duration.num() > 0
            &&& fps@[a as int].duration.num() > 0 ==> is_at_least(
                o.coverage_a,
                fps@[a as int].duration,
                duration,
            )
            &&& fps@[b as int].duration.num() > 0 ==> is_at_least(
                o.coverage_b,
                fps@[b as int].duration,
                duration,
            )
        },
{
    lemma_searched(fps, d, percent, duration, stop, matches, a, b, o);
    let (da, db) = (fps@[a as int].duration, fps@[b as int].duration);
    let (an, ad) = (o.coverage_a.part() * da.num(), o.coverage_a.whole() * da.den());
    let (bn, bd) = (o.coverage_b.part() * db.num(), o.coverage_b.whole() * db.den());
    assert(ad > 0) by (nonlinear_arith)
        requires
            ad == o.coverage_a.whole() * da.den(),
            o.coverage_a.whole() > 0,
            da.den() > 0,
    ;
    assert(bd > 0) by (nonlinear_arith)
        requires
            bd == o.coverage_b.whole() * db.den(),
            o.coverage_b.whole() > 0,
            db.den() > 0,
    ;
    let (n, e) = (duration.num(), duration.den());
    if an * bd <= bn * ad && n * ad <= an * e {
        lemma_the_longer_lasts_too(n, e, an, ad, bn, bd);
    }
    if bn * ad <= an * bd && n * bd <= bn * e {
        lemma_the_longer_lasts_too(n, e, bn, bd, an, ad);
    }
}

/// Every match says what measuring its two videos says: the figures under `a` are the
/// first video's and those under `b` the second's, and no pair is reported twice.
pub proof fn lemma_a_report_tells_the_two_videos_apart<F>(
    fps: &[VideoFingerprint],
    d: u32,
    percent: Share,
    duration: Seconds,
    stop: &F,
    matches: Vec<Match>,
    i: int,
    o: Overlap,
) where F: Fn() -> bool
    requires
        call_ensures(find_all_matches::<F>, (fps, d, percent, duration, stop), matches),
        0 <= i < matches@.len(),
        is_overlap(
            &fps@[matches@[i].a as int],
            &fps@[matches@[i].b as int],
            d as nat,
            if d <= 58 {
                (d + 6) as nat
            } else {
                64
            },
            o,
        ),
    ensures
        matches@[i].a < matches@[i].b < fps@.len(),
        matches@[i].coverage_a.part() == o.coverage_a.part(),
        matches@[i].coverage_a.whole() == o.coverage_a.whole(),
        matches@[i].coverage_b.part() == o.coverage_b.part(),
        matches@[i].coverage_b.whole() == o.coverage_b.whole(),
        matches@[i].span_a == o.span_a,
        matches@[i].span_b == o.span_b,
        forall|j: int|
            0 <= j < matches@.len() && j != i ==> (#[trigger] matches@[j]).a != matches@[i].a
                || matches@[j].b != matches@[i].b,
{
    lemma_reach_is_six_bits_past_the_tolerance(d as nat);
    let m = matches@[i];
    lemma_one_overlap(
        &fps@[m.a as int],
        &fps@[m.b as int],
        d as nat,
        loose_for(d as nat),
        o,
        overlap_in(m),
    );
}

} // verus!
