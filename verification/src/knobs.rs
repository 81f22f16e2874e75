//! What turning a setting does to a report.

use crate::candidates::{pair_lt, Pair};
use crate::clustering::{is_edge, is_grouping, lemma_every_match_is_reported, match_graph};
use crate::cliques::is_graph;
use crate::compare::{
    are_matches, clears, is_reported, lasts, overlap_in, pair_clears, pair_footage, Match,
};
use crate::enumeration::Abandoned;
use crate::evidence::loose_for;
use crate::figures::lemma_a_wider_tolerance_reports_no_less;
use crate::fingerprint::VideoFingerprint;
use crate::frames::{
    frame_distance, frame_row, is_admitted, is_balanced, is_matched_a, is_matched_b, is_timed,
    rows_of, rows_upto,
};
use crate::overlap::{
    covered_upto, footage_den, footage_le, footage_num, is_first, is_last, is_marking_a,
    is_marking_b, is_measure, is_overlap, lemma_footage_total, lemma_footage_transitive,
    lemma_one_overlap, lemma_there_is_an_overlap, share_le, Footage, Overlap, Share, Span,
};
use crate::picture::lemma_parity;
use crate::quantity::Seconds;
use vstd::prelude::*;

verus! {

/// Is one length of time no longer than the other?
pub open spec fn length_le(a: Seconds, b: Seconds) -> bool {
    a.num() * b.den() <= b.num() * a.den()
}

/// One way to say what a match is: how far apart two frames may be, how much of a video
/// has to match, and for how long.
pub struct Settings {
    pub distance: u32,
    pub percent: Share,
    pub duration: Seconds,
}

/// Whether the figures of some settings are fractions.
pub open spec fn are_settings(s: Settings) -> bool {
    s.percent.whole() > 0 && s.duration.den() > 0
}

/// Whether some settings ask for no less than others, by every knob.
pub open spec fn is_stricter(s: Settings, t: Settings) -> bool {
    &&& s.distance <= t.distance
    &&& share_le(t.percent, s.percent)
    &&& length_le(t.duration, s.duration)
}

/// Whether a pair is a match under some settings.
pub open spec fn is_pair(fps: Seq<VideoFingerprint>, p: Pair, s: Settings) -> bool {
    p.0 < p.1 < fps.len() && pair_clears(
        fps,
        p,
        s.distance as nat,
        loose_for(s.distance as nat),
        s.percent,
        s.duration,
    )
}

/// Whether a list of matches reports exactly the pairs that are one.
pub open spec fn reports(fps: Seq<VideoFingerprint>, s: Settings, matches: Seq<Match>) -> bool {
    forall|p: Pair| #[trigger] is_reported(matches, p) <==> is_pair(fps, p, s)
}

/// Whether a graph's edges are the matches.
pub open spec fn are_edges(matches: Seq<Match>, edges: Seq<(usize, usize)>) -> bool {
    forall|u: usize, v: usize| #[trigger]
        is_edge(edges, u, v) <==> is_reported(matches, (u, v)) || is_reported(matches, (v, u))
}

/// Whether a file stands in some group.
pub open spec fn is_listed(groups: Seq<Vec<usize>>, x: usize) -> bool {
    exists|i: int| 0 <= i < groups.len() && (#[trigger] groups[i])@.contains(x)
}

/// Whether a file was left out with all the files it is linked to.
pub open spec fn is_left_out(abandoned: Seq<Abandoned>, x: usize) -> bool {
    exists|i: int| 0 <= i < abandoned.len() && (#[trigger] abandoned[i]).component@.contains(x)
}

proof fn lemma_share_transitive(a: Share, b: Share, c: Share)
    requires
        share_le(a, b),
        share_le(b, c),
        b.whole() > 0,
    ensures
        share_le(a, c),
{
    let (ap, aw) = (a.part() as int, a.whole() as int);
    let (bp, bw) = (b.part() as int, b.whole() as int);
    let (cp, cw) = (c.part() as int, c.whole() as int);
    assert(ap * cw <= cp * aw) by (nonlinear_arith)
        requires
            ap * bw <= bp * aw,
            bp * cw <= cp * bw,
            bw > 0,
            ap >= 0,
            aw >= 0,
            bp >= 0,
            cp >= 0,
            cw >= 0,
    ;
}

proof fn lemma_more_of_one_file(x: Share, y: Share, runtime: Seconds)
    requires
        share_le(x, y),
    ensures
        footage_le(Footage { share: x, runtime }, Footage { share: y, runtime }),
{
    let (xp, xw) = (x.part() as int, x.whole() as int);
    let (yp, yw) = (y.part() as int, y.whole() as int);
    let (n, d) = (runtime.num() as int, runtime.den() as int);
    assert((xp * n) * (yw * d) <= (yp * n) * (xw * d)) by (nonlinear_arith)
        requires
            xp * yw <= yp * xw,
            n >= 0,
            d >= 0,
    {
        let k = n * d;
        assert((xp * n) * (yw * d) == (xp * yw) * k) by (nonlinear_arith)
            requires
                k == n * d,
        ;
        assert((yp * n) * (xw * d) == (yp * xw) * k) by (nonlinear_arith)
            requires
                k == n * d,
        ;
        assert(k >= 0) by (nonlinear_arith)
            requires
                k == n * d,
                n >= 0,
                d >= 0,
        ;
        assert((xp * yw) * k <= (yp * xw) * k) by (nonlinear_arith)
            requires
                xp * yw <= yp * xw,
                k >= 0,
        ;
    }
}

proof fn lemma_longer_lasts(f: Footage, g: Footage, floor: Seconds, lower: Seconds)
    requires
        footage_le(f, g),
        lasts(f, floor),
        length_le(lower, floor),
        footage_den(f) > 0,
        floor.den() > 0,
    ensures
        lasts(g, lower),
{
    let (fn_, fd) = (footage_num(f) as int, footage_den(f) as int);
    let (gn, gd) = (footage_num(g) as int, footage_den(g) as int);
    let (n, d) = (floor.num() as int, floor.den() as int);
    let (m, e) = (lower.num() as int, lower.den() as int);
    assert(n * gd <= gn * d) by (nonlinear_arith)
        requires
            n * fd <= fn_ * d,
            fn_ * gd <= gn * fd,
            fd > 0,
            d > 0,
            n >= 0,
            gd >= 0,
            fn_ >= 0,
            gn >= 0,
    ;
    assert(m * gd <= gn * e) by (nonlinear_arith)
        requires
            n * gd <= gn * d,
            m * d <= n * e,
            d > 0,
            gd >= 0,
            e >= 0,
            m >= 0,
            n >= 0,
            gn >= 0,
    ;
}

/// A pair that shares more, and is asked for less, still clears what is asked.
proof fn lemma_clears_still(
    o: Overlap,
    q: Overlap,
    duration_a: Seconds,
    duration_b: Seconds,
    s: Settings,
    t: Settings,
)
    requires
        clears(o, duration_a, duration_b, s.percent, s.duration),
        share_le(o.coverage_a, q.coverage_a),
        share_le(o.coverage_b, q.coverage_b),
        o.coverage_a.whole() > 0,
        o.coverage_b.whole() > 0,
        q.coverage_a.whole() > 0,
        q.coverage_b.whole() > 0,
        duration_a.den() > 0,
        duration_b.den() > 0,
        are_settings(s),
        are_settings(t),
        is_stricter(s, t),
    ensures
        clears(q, duration_a, duration_b, t.percent, t.duration),
{
    lemma_some_is_kept(o.coverage_a, q.coverage_a);
    lemma_some_is_kept(o.coverage_b, q.coverage_b);
    if share_le(s.percent, o.coverage_a) {
        lemma_share_transitive(t.percent, s.percent, o.coverage_a);
        lemma_share_transitive(t.percent, o.coverage_a, q.coverage_a);
    }
    if share_le(s.percent, o.coverage_b) {
        lemma_share_transitive(t.percent, s.percent, o.coverage_b);
        lemma_share_transitive(t.percent, o.coverage_b, q.coverage_b);
    }
    let a = Footage { share: o.coverage_a, runtime: duration_a };
    let b = Footage { share: o.coverage_b, runtime: duration_b };
    let c = Footage { share: q.coverage_a, runtime: duration_a };
    let d = Footage { share: q.coverage_b, runtime: duration_b };
    lemma_more_of_one_file(o.coverage_a, q.coverage_a, duration_a);
    lemma_more_of_one_file(o.coverage_b, q.coverage_b, duration_b);
    lemma_den_positive(a);
    lemma_den_positive(b);
    lemma_den_positive(c);
    lemma_den_positive(d);
    if t.duration.num() > 0 {
        let (m, e) = (t.duration.num() as int, t.duration.den() as int);
        let (n, k) = (s.duration.num() as int, s.duration.den() as int);
        assert(n > 0) by (nonlinear_arith)
            requires
                m * k <= n * e,
                m > 0,
                k > 0,
                e > 0,
                n >= 0,
        ;
        let f = pair_footage(a, b)->0;
        let g = pair_footage(c, d)->0;
        assert(footage_le(f, g)) by {
            lemma_footage_total(a, b);
            lemma_footage_total(c, d);
            if a.runtime.num() > 0 && b.runtime.num() > 0 {
                if footage_le(a, b) {
                    if !footage_le(c, d) {
                        lemma_footage_transitive(a, b, d);
                    }
                } else {
                    if footage_le(c, d) {
                        lemma_footage_transitive(b, a, c);
                    }
                }
            }
        }
        lemma_longer_lasts(f, g, s.duration, t.duration);
    }
}

proof fn lemma_some_is_kept(x: Share, y: Share)
    requires
        share_le(x, y),
        x.whole() > 0,
        y.whole() > 0,
    ensures
        x.part() > 0 ==> y.part() > 0,
{
    let (xp, xw) = (x.part() as int, x.whole() as int);
    let (yp, yw) = (y.part() as int, y.whole() as int);
    if xp > 0 && yp == 0 {
        assert(xp * yw > 0) by (nonlinear_arith)
            requires
                xp > 0,
                yw > 0,
        ;
    }
}

proof fn lemma_den_positive(f: Footage)
    requires
        f.share.whole() > 0,
        f.runtime.den() > 0,
    ensures
        footage_den(f) > 0,
{
    let (w, d) = (f.share.whole() as int, f.runtime.den() as int);
    assert(w * d > 0) by (nonlinear_arith)
        requires
            w > 0,
            d > 0,
    ;
}

/// Raising the distance, or lowering the percentage or the duration, only ever adds
/// matches: a pair that is one stays one.
pub proof fn lemma_every_knob_is_monotone(
    fps: Seq<VideoFingerprint>,
    p: Pair,
    s: Settings,
    t: Settings,
)
    requires
        is_timed(&fps[p.0 as int]),
        is_timed(&fps[p.1 as int]),
        fps[p.0 as int].duration.den() > 0,
        fps[p.1 as int].duration.den() > 0,
        are_settings(s),
        are_settings(t),
        is_stricter(s, t),
        is_pair(fps, p, s),
    ensures
        is_pair(fps, p, t),
{
    let a = &fps[p.0 as int];
    let b = &fps[p.1 as int];
    let o = choose|o: Overlap|
        #[trigger] is_overlap(a, b, s.distance as nat, loose_for(s.distance as nat), o) && clears(
            o,
            a.duration,
            b.duration,
            s.percent,
            s.duration,
        );
    let q = lemma_there_is_an_overlap(a, b, t.distance as nat, loose_for(t.distance as nat));
    lemma_a_wider_tolerance_reports_no_less(a, b, s.distance as nat, t.distance as nat, o, q);
    lemma_clears_still(o, q, a.duration, b.duration, s, t);
}

/// Whether this is the list of matches found under some settings.
pub open spec fn is_match_list(
    fps: Seq<VideoFingerprint>,
    s: Settings,
    matches: Seq<Match>,
) -> bool {
    &&& are_matches(
        fps,
        s.distance as nat,
        loose_for(s.distance as nat),
        s.percent,
        s.duration,
        matches,
    )
    &&& reports(fps, s, matches)
}

/// Whether two videos are said to have the same in common.
pub open spec fn is_same_figure(o: Overlap, q: Overlap) -> bool {
    &&& o.coverage_a.part() == q.coverage_a.part()
    &&& o.coverage_a.whole() == q.coverage_a.whole()
    &&& o.coverage_b.part() == q.coverage_b.part()
    &&& o.coverage_b.whole() == q.coverage_b.whole()
    &&& o.span_a == q.span_a
    &&& o.span_b == q.span_b
}

/// What is reported of a pair is what measuring the pair gives. Whatever two videos have
/// in common under a tolerance, their pair is among the matches exactly where that
/// clears both gates, once, and with those figures.
pub proof fn lemma_a_match_is_what_measuring_gives(
    fps: Seq<VideoFingerprint>,
    s: Settings,
    matches: Seq<Match>,
    p: Pair,
    o: Overlap,
)
    requires
        is_match_list(fps, s, matches),
        p.0 < p.1 < fps.len(),
        is_overlap(
            &fps[p.0 as int],
            &fps[p.1 as int],
            s.distance as nat,
            loose_for(s.distance as nat),
            o,
        ),
    ensures
        is_reported(matches, p) <==> clears(
            o,
            fps[p.0 as int].duration,
            fps[p.1 as int].duration,
            s.percent,
            s.duration,
        ),
        forall|i: int|
            0 <= i < matches.len() && (#[trigger] matches[i]).a == p.0 && matches[i].b == p.1
                ==> is_same_figure(o, overlap_in(matches[i])),
        forall|i: int, j: int|
            0 <= i < matches.len() && 0 <= j < matches.len() && (#[trigger] matches[i]).a == p.0
                && matches[i].b == p.1 && (#[trigger] matches[j]).a == p.0 && matches[j].b == p.1
                ==> i == j,
{
    let a = &fps[p.0 as int];
    let b = &fps[p.1 as int];
    let (d, loose) = (s.distance as nat, loose_for(s.distance as nat));
    assert forall|q: Overlap| #[trigger] is_overlap(a, b, d, loose, q) implies is_same_figure(o, q)
        && (clears(o, a.duration, b.duration, s.percent, s.duration) <==> clears(
        q,
        a.duration,
        b.duration,
        s.percent,
        s.duration,
    )) by {
        lemma_one_overlap(a, b, d, loose, o, q);
        lemma_the_same_gates(o, q, a.duration, b.duration, s);
    }
    assert(is_reported(matches, p) <==> is_pair(fps, p, s));
    assert forall|i: int, j: int|
        0 <= i < matches.len() && 0 <= j < matches.len() && (#[trigger] matches[i]).a == p.0
            && matches[i].b == p.1 && (#[trigger] matches[j]).a == p.0 && matches[j].b
            == p.1 implies i == j by {
        if i < j {
            assert(pair_lt((matches[i].a, matches[i].b), (matches[j].a, matches[j].b)));
        } else if j < i {
            assert(pair_lt((matches[j].a, matches[j].b), (matches[i].a, matches[i].b)));
        }
    }
}

/// The same figures clear the same gates.
proof fn lemma_the_same_gates(
    o: Overlap,
    q: Overlap,
    duration_a: Seconds,
    duration_b: Seconds,
    s: Settings,
)
    requires
        is_same_figure(o, q),
    ensures
        clears(o, duration_a, duration_b, s.percent, s.duration) <==> clears(
            q,
            duration_a,
            duration_b,
            s.percent,
            s.duration,
        ),
{
    let a = Footage { share: o.coverage_a, runtime: duration_a };
    let b = Footage { share: o.coverage_b, runtime: duration_b };
    let c = Footage { share: q.coverage_a, runtime: duration_a };
    let d = Footage { share: q.coverage_b, runtime: duration_b };
    assert(footage_le(a, b) == footage_le(c, d));
}

/// Looser settings lose nothing: every pair found under some is found under every looser
/// one, and no less of either video is matched there.
pub proof fn lemma_looser_settings_lose_no_match(
    fps: Seq<VideoFingerprint>,
    s: Settings,
    t: Settings,
    few: Seq<Match>,
    many: Seq<Match>,
    i: int,
) -> (j: int)
    requires
        forall|i: int|
            0 <= i < fps.len() ==> is_timed(#[trigger] &fps[i]) && fps[i].duration.den() > 0,
        are_settings(s),
        are_settings(t),
        is_stricter(s, t),
        is_match_list(fps, s, few),
        is_match_list(fps, t, many),
        0 <= i < few.len(),
    ensures
        0 <= j < many.len(),
        many[j].a == few[i].a,
        many[j].b == few[i].b,
        share_le(few[i].coverage_a, many[j].coverage_a),
        share_le(few[i].coverage_b, many[j].coverage_b),
{
    let m = few[i];
    let p: Pair = (m.a, m.b);
    let a = &fps[m.a as int];
    let b = &fps[m.b as int];
    assert(is_reported(few, p));
    assert(is_pair(fps, p, s));
    assert(is_timed(a) && is_timed(b));
    lemma_every_knob_is_monotone(fps, p, s, t);
    assert(is_reported(many, p));
    let j = choose|j: int|
        0 <= j < many.len() && (#[trigger] many[j]).a == p.0 && many[j].b == p.1;
    lemma_a_wider_tolerance_reports_no_less(
        a,
        b,
        s.distance as nat,
        t.distance as nat,
        overlap_in(m),
        overlap_in(many[j]),
    );
    j
}

/// The matches of a library are the edges of a graph.
proof fn lemma_matches_are_a_graph(
    fps: Seq<VideoFingerprint>,
    s: Settings,
    matches: Seq<Match>,
    edges: Seq<(usize, usize)>,
)
    requires
        reports(fps, s, matches),
        are_edges(matches, edges),
    ensures
        is_graph(match_graph(fps.len(), edges)),
{
    let g = match_graph(fps.len(), edges);
    assert forall|u: usize, v: usize| u < g.len() && #[trigger] g[u as int].contains(v) implies v
        < g.len() && v != u && g[v as int].contains(u) by {
        assert(is_edge(edges, u, v));
        if is_reported(matches, (u, v)) {
            assert(is_pair(fps, (u, v), s));
        } else {
            assert(is_pair(fps, (v, u), s));
        }
        assert(is_edge(edges, v, u));
    }
}

/// The report at any settings is part of the report at every looser one: a file that
/// stands in a group still does, unless what it is linked to has become too dense to
/// report and is named as a problem instead.
pub proof fn lemma_a_looser_report_holds_every_file(
    fps: Seq<VideoFingerprint>,
    s: Settings,
    t: Settings,
    few: Seq<Match>,
    many: Seq<Match>,
    few_edges: Seq<(usize, usize)>,
    many_edges: Seq<(usize, usize)>,
    few_abandoned: Seq<Abandoned>,
    many_abandoned: Seq<Abandoned>,
    few_groups: Seq<Vec<usize>>,
    many_groups: Seq<Vec<usize>>,
    x: usize,
)
    requires
        forall|i: int|
            0 <= i < fps.len() ==> is_timed(#[trigger] &fps[i]) && fps[i].duration.den() > 0,
        are_settings(s),
        are_settings(t),
        is_stricter(s, t),
        reports(fps, s, few),
        reports(fps, t, many),
        are_edges(few, few_edges),
        are_edges(many, many_edges),
        is_grouping(match_graph(fps.len(), few_edges), fps, few_abandoned, few_groups),
        is_grouping(match_graph(fps.len(), many_edges), fps, many_abandoned, many_groups),
        is_listed(few_groups, x),
    ensures
        is_listed(many_groups, x) || is_left_out(many_abandoned, x),
{
    let n = fps.len();
    let i = choose|i: int| 0 <= i < few_groups.len() && (#[trigger] few_groups[i])@.contains(x);
    let g = match_graph(n, few_edges);
    let group = few_groups[i]@;
    let k = group.to_set();
    assert(crate::clustering::is_reported(few_groups, k));
    group.unique_seq_to_set();
    assert(k.contains(x));
    assert(k.len() > 1);
    assert(k.remove(x).len() > 0);
    let y = k.remove(x).choose();
    assert(k.remove(x).contains(y));
    assert(k.contains(y) && y != x);
    assert(group.contains(y));
    crate::clustering::lemma_a_group_holds_only_matches(
        n,
        few_edges,
        fps,
        few_abandoned,
        few_groups,
        i,
        x,
        y,
    );
    let p: Pair = if is_reported(few, (x, y)) {
        (x, y)
    } else {
        (y, x)
    };
    assert(is_reported(few, p));
    assert(is_pair(fps, p, s));
    assert(is_timed(&fps[p.0 as int]) && is_timed(&fps[p.1 as int]));
    lemma_every_knob_is_monotone(fps, p, s, t);
    assert(is_reported(many, p));
    assert(is_edge(many_edges, x, y));
    if !is_left_out(many_abandoned, x) {
        lemma_matches_are_a_graph(fps, t, many, many_edges);
        lemma_every_match_is_reported(
            n,
            many_edges,
            fps,
            many_abandoned,
            many_groups,
            x,
            y,
        );
        let j = choose|j: int|
            0 <= j < many_groups.len() && (#[trigger] many_groups[j])@.contains(x)
                && many_groups[j]@.contains(y);
        assert(many_groups[j]@.contains(x));
    }
}

/// Whether two files hold the same samples over the same runtime, whatever they are
/// called and however they were encoded.
pub open spec fn is_same_footage(a: &VideoFingerprint, b: &VideoFingerprint) -> bool {
    &&& a.valid_hashes@ == b.valid_hashes@
    &&& a.valid_t_start@ == b.valid_t_start@
    &&& a.valid_t_end@ == b.valid_t_end@
    &&& a.total_ms == b.total_ms
    &&& a.duration == b.duration
}

proof fn lemma_same_rows_of(
    a: &VideoFingerprint,
    b: &VideoFingerprint,
    c: &VideoFingerprint,
    d: &VideoFingerprint,
    loose: nat,
    i: int,
    n: int,
)
    requires
        is_same_footage(a, c),
        is_same_footage(b, d),
    ensures
        rows_of(a, b, loose, i, n) == rows_of(c, d, loose, i, n),
    decreases n,
{
    if n > 0 {
        lemma_same_rows_of(a, b, c, d, loose, i, n - 1);
    }
}

proof fn lemma_same_rows_upto(
    a: &VideoFingerprint,
    b: &VideoFingerprint,
    c: &VideoFingerprint,
    d: &VideoFingerprint,
    loose: nat,
    m: int,
)
    requires
        is_same_footage(a, c),
        is_same_footage(b, d),
    ensures
        rows_upto(a, b, loose, m) == rows_upto(c, d, loose, m),
    decreases m,
{
    if m > 0 {
        lemma_same_rows_upto(a, b, c, d, loose, m - 1);
        lemma_same_rows_of(a, b, c, d, loose, m - 1, b.valid_hashes@.len() as int);
    }
}

proof fn lemma_same_cover(matched: Seq<bool>, a: &VideoFingerprint, b: &VideoFingerprint, n: int)
    requires
        is_same_footage(a, b),
    ensures
        covered_upto(matched, a, n) == covered_upto(matched, b, n),
    decreases n,
{
    if n > 0 {
        lemma_same_cover(matched, a, b, n - 1);
    }
}

proof fn lemma_same_measure(
    matched: Seq<bool>,
    a: &VideoFingerprint,
    b: &VideoFingerprint,
    share: Share,
    span: Option<Span>,
)
    requires
        is_same_footage(a, b),
        is_measure(matched, a, share, span),
    ensures
        is_measure(matched, b, share, span),
{
    lemma_same_cover(matched, a, b, matched.len() as int);
    match span {
        None => {},
        Some(s) => {
            let (first, last) = choose|first: int, last: int|
                #[trigger] is_first(matched, first) && #[trigger] is_last(matched, last)
                    && s.start_ms == a.valid_t_start@[first] && s.end_ms == a.valid_t_end@[last];
            assert(is_first(matched, first) && is_last(matched, last));
        },
    }
}

/// Matching is blind to how a video was encoded: what two videos have in common rests
/// on their samples and runtimes alone.
pub proof fn lemma_matching_is_blind_to_encoding(
    a: &VideoFingerprint,
    b: &VideoFingerprint,
    c: &VideoFingerprint,
    d: &VideoFingerprint,
    strict: nat,
    loose: nat,
    o: Overlap,
)
    requires
        is_same_footage(a, c),
        is_same_footage(b, d),
        is_overlap(a, b, strict, loose, o),
    ensures
        is_overlap(c, d, strict, loose, o),
{
    lemma_same_rows_upto(a, b, c, d, loose, a.valid_hashes@.len() as int);
    assert forall|i: int, j: int| #[trigger]
        is_admitted(a, b, strict, loose, i, j) == is_admitted(c, d, strict, loose, i, j) by {
        assert(frame_row(a, b, i, j) == frame_row(c, d, i, j));
    }
    let (ma, mb) = choose|ma: Seq<bool>, mb: Seq<bool>|
        #[trigger] is_marking_a(a, b, strict, loose, ma) && #[trigger] is_marking_b(
            a,
            b,
            strict,
            loose,
            mb,
        ) && is_measure(ma, a, o.coverage_a, o.span_a) && is_measure(
            mb,
            b,
            o.coverage_b,
            o.span_b,
        );
    assert forall|i: int| 0 <= i < ma.len() implies (#[trigger] ma[i] <==> is_matched_a(
        c,
        d,
        strict,
        loose,
        i,
    )) by {
        if ma[i] {
            let j = choose|j: int| #[trigger] is_admitted(a, b, strict, loose, i, j);
            assert(is_admitted(c, d, strict, loose, i, j));
        }
        if is_matched_a(c, d, strict, loose, i) {
            let j = choose|j: int| #[trigger] is_admitted(c, d, strict, loose, i, j);
            assert(is_admitted(a, b, strict, loose, i, j));
            assert(is_matched_a(a, b, strict, loose, i));
        }
    }
    assert forall|j: int| 0 <= j < mb.len() implies (#[trigger] mb[j] <==> is_matched_b(
        c,
        d,
        strict,
        loose,
        j,
    )) by {
        if mb[j] {
            let i = choose|i: int| #[trigger] is_admitted(a, b, strict, loose, i, j);
            assert(is_admitted(c, d, strict, loose, i, j));
        }
        if is_matched_b(c, d, strict, loose, j) {
            let i = choose|i: int| #[trigger] is_admitted(c, d, strict, loose, i, j);
            assert(is_admitted(a, b, strict, loose, i, j));
            assert(is_matched_b(a, b, strict, loose, j));
        }
    }
    assert(is_marking_a(c, d, strict, loose, ma));
    assert(is_marking_b(c, d, strict, loose, mb));
    lemma_same_measure(ma, a, c, o.coverage_a, o.span_a);
    lemma_same_measure(mb, b, d, o.coverage_b, o.span_b);
}

/// Two frames of fingerprinted videos are an even number of bits apart.
proof fn lemma_an_even_distance(a: &VideoFingerprint, b: &VideoFingerprint, i: int, j: int)
    requires
        is_balanced(a),
        is_balanced(b),
        0 <= i < a.valid_hashes@.len(),
        0 <= j < b.valid_hashes@.len(),
    ensures
        frame_distance(a, b, i, j) % 2 == 0,
{
    lemma_parity(a.valid_hashes@[i], b.valid_hashes@[j]);
}

proof fn lemma_odd_rows_of(
    a: &VideoFingerprint,
    b: &VideoFingerprint,
    loose: nat,
    less: nat,
    i: int,
    n: int,
)
    requires
        is_balanced(a),
        is_balanced(b),
        less == loose || (loose % 2 == 1 && less == loose - 1),
        0 <= i < a.valid_hashes@.len(),
        n <= b.valid_hashes@.len(),
    ensures
        rows_of(a, b, loose, i, n) == rows_of(a, b, less, i, n),
    decreases n,
{
    if n > 0 {
        lemma_an_even_distance(a, b, i, n - 1);
        lemma_odd_rows_of(a, b, loose, less, i, n - 1);
    }
}

proof fn lemma_odd_rows_upto(
    a: &VideoFingerprint,
    b: &VideoFingerprint,
    loose: nat,
    less: nat,
    m: int,
)
    requires
        is_balanced(a),
        is_balanced(b),
        less == loose || (loose % 2 == 1 && less == loose - 1),
        m <= a.valid_hashes@.len(),
    ensures
        rows_upto(a, b, loose, m) == rows_upto(a, b, less, m),
    decreases m,
{
    if m > 0 {
        lemma_odd_rows_upto(a, b, loose, less, m - 1);
        lemma_odd_rows_of(a, b, loose, less, m - 1, b.valid_hashes@.len() as int);
    }
}

/// Only even distances do anything: two fingerprinted videos have in common at an odd
/// one exactly what they have at the even one below it.
pub proof fn lemma_an_odd_distance_is_the_even_one_below(
    a: &VideoFingerprint,
    b: &VideoFingerprint,
    d: nat,
    o: Overlap,
)
    requires
        is_balanced(a),
        is_balanced(b),
        d % 2 == 1,
    ensures
        is_overlap(a, b, d, loose_for(d), o) <==> is_overlap(
            a,
            b,
            (d - 1) as nat,
            loose_for((d - 1) as nat),
            o,
        ),
{
    let e = (d - 1) as nat;
    let (loose, less) = (loose_for(d), loose_for(e));
    lemma_odd_rows_upto(a, b, loose, less, a.valid_hashes@.len() as int);
    assert forall|i: int, j: int| #[trigger]
        is_admitted(a, b, d, loose, i, j) == is_admitted(a, b, e, less, i, j) by {
        if 0 <= i < a.valid_hashes@.len() && 0 <= j < b.valid_hashes@.len() {
            lemma_an_even_distance(a, b, i, j);
        }
    }
    lemma_same_overlap(a, b, d, loose, e, less, o);
    lemma_same_overlap(a, b, e, less, d, loose, o);
}

/// Tolerances that admit the same frames find the same footage.
proof fn lemma_same_overlap(
    a: &VideoFingerprint,
    b: &VideoFingerprint,
    d: nat,
    loose: nat,
    e: nat,
    less: nat,
    o: Overlap,
)
    requires
        forall|i: int, j: int| #[trigger]
            is_admitted(a, b, d, loose, i, j) == is_admitted(a, b, e, less, i, j),
    ensures
        is_overlap(a, b, d, loose, o) ==> is_overlap(a, b, e, less, o),
{
    if is_overlap(a, b, d, loose, o) {
        let (ma, mb) = choose|ma: Seq<bool>, mb: Seq<bool>|
            #[trigger] is_marking_a(a, b, d, loose, ma) && #[trigger] is_marking_b(
                a,
                b,
                d,
                loose,
                mb,
            ) && is_measure(ma, a, o.coverage_a, o.span_a) && is_measure(
                mb,
                b,
                o.coverage_b,
                o.span_b,
            );
        assert forall|i: int| 0 <= i < ma.len() implies (#[trigger] ma[i] <==> is_matched_a(
            a,
            b,
            e,
            less,
            i,
        )) by {
            if ma[i] {
                let j = choose|j: int| #[trigger] is_admitted(a, b, d, loose, i, j);
                assert(is_admitted(a, b, e, less, i, j));
            }
            if is_matched_a(a, b, e, less, i) {
                let j = choose|j: int| #[trigger] is_admitted(a, b, e, less, i, j);
                assert(is_admitted(a, b, d, loose, i, j));
                assert(is_matched_a(a, b, d, loose, i));
            }
        }
        assert forall|j: int| 0 <= j < mb.len() implies (#[trigger] mb[j] <==> is_matched_b(
            a,
            b,
            e,
            less,
            j,
        )) by {
            if mb[j] {
                let i = choose|i: int| #[trigger] is_admitted(a, b, d, loose, i, j);
                assert(is_admitted(a, b, e, less, i, j));
            }
            if is_matched_b(a, b, e, less, j) {
                let i = choose|i: int| #[trigger] is_admitted(a, b, e, less, i, j);
                assert(is_admitted(a, b, d, loose, i, j));
                assert(is_matched_b(a, b, d, loose, j));
            }
        }
        assert(is_marking_a(a, b, e, less, ma));
        assert(is_marking_b(a, b, e, less, mb));
    }
}

} // verus!
