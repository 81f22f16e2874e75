//! What looking up a pair of videos promises.

use crate::compare::{
    found_links, overlap_seconds, recorded, ByStrength, GroupLink, Link, Match, MatchIndex,
};
use crate::fingerprint::VideoFingerprint;
use crate::ordering::{lemma_same_members, Precedence};
use crate::overlap::{Footage, Share, Span};
use crate::quantity::Seconds;
use crate::text::{lemma_text_total, text_standing, Standing};
use vstd::prelude::*;

verus! {

/// Whether this is the last of some matches between two videos, whichever way round.
pub open spec fn is_last_word(matches: Seq<Match>, k: int, a: usize, b: usize) -> bool {
    &&& 0 <= k < matches.len()
    &&& (matches[k].a == a && matches[k].b == b) || (matches[k].a == b && matches[k].b == a)
    &&& forall|j: int|
        k < j < matches.len() ==> !((#[trigger] matches[j]).a == a && matches[j].b == b) && !(
        matches[j].a == b && matches[j].b == a)
}

proof fn lemma_last_word(matches: Seq<Match>, k: int, a: usize, b: usize)
    requires
        is_last_word(matches, k, a, b),
        a != b,
    ensures
        matches[k].a == a ==> recorded(matches, a, b) == Some(
            Link { coverage: matches[k].coverage_a, span: matches[k].span_a },
        ),
        matches[k].a == b ==> recorded(matches, a, b) == Some(
            Link { coverage: matches[k].coverage_b, span: matches[k].span_b },
        ),
    decreases matches.len(),
{
    let less = matches.drop_last();
    if k < less.len() {
        assert(matches[matches.len() - 1] == matches.last());
        assert forall|j: int| k < j < less.len() implies !((#[trigger] less[j]).a == a && less[j].b
            == b) && !(less[j].a == b && less[j].b == a) by {
            assert(matches[j] == less[j]);
        }
        lemma_last_word(less, k, a, b);
    }
}

proof fn lemma_no_word(matches: Seq<Match>, a: usize, b: usize)
    requires
        forall|j: int|
            0 <= j < matches.len() ==> !((#[trigger] matches[j]).a == a && matches[j].b == b) && !(
            matches[j].a == b && matches[j].b == a),
    ensures
        recorded(matches, a, b) is None,
    decreases matches.len(),
{
    if matches.len() > 0 {
        let less = matches.drop_last();
        assert(matches[matches.len() - 1] == matches.last());
        assert forall|j: int| 0 <= j < less.len() implies !((#[trigger] less[j]).a == a && less[j].b
            == b) && !(less[j].a == b && less[j].b == a) by {
            assert(matches[j] == less[j]);
        }
        lemma_no_word(less, a, b);
    }
}

/// A pair is looked up from either end, and each end is told of itself: how much of it is
/// in the other file, where in it that lies, and how long that is of its own runtime.
pub proof fn lemma_each_end_is_told_of_itself(
    matches: Vec<Match>,
    index: &MatchIndex,
    k: int,
    fps: &[VideoFingerprint],
    coverage: Option<Share>,
    other_coverage: Option<Share>,
    span: Option<Span>,
    other_span: Option<Span>,
    matched: Option<Footage>,
    other_matched: Option<Footage>,
)
    requires
        call_ensures(MatchIndex::new, (matches,), *index),
        0 <= k < matches@.len(),
        matches@[k].a != matches@[k].b,
        is_last_word(matches@, k, matches@[k].a, matches@[k].b),
        call_ensures(MatchIndex::coverage, (index, matches@[k].a, matches@[k].b), coverage),
        call_ensures(MatchIndex::coverage, (index, matches@[k].b, matches@[k].a), other_coverage),
        call_ensures(MatchIndex::span, (index, matches@[k].a, matches@[k].b), span),
        call_ensures(MatchIndex::span, (index, matches@[k].b, matches@[k].a), other_span),
        call_ensures(
            MatchIndex::matched_seconds,
            (index, matches@[k].a, matches@[k].b, fps),
            matched,
        ),
        call_ensures(
            MatchIndex::matched_seconds,
            (index, matches@[k].b, matches@[k].a, fps),
            other_matched,
        ),
    ensures
        coverage == Some(matches@[k].coverage_a),
        other_coverage == Some(matches@[k].coverage_b),
        span == matches@[k].span_a,
        other_span == matches@[k].span_b,
        matched matches Some(f) && f.share == matches@[k].coverage_a && f.runtime
            == fps@[matches@[k].a as int].duration,
        other_matched matches Some(f) && f.share == matches@[k].coverage_b && f.runtime
            == fps@[matches@[k].b as int].duration,
{
    let (a, b) = (matches@[k].a, matches@[k].b);
    assert(index.link(a, b) == recorded(matches@, a, b));
    assert(index.link(b, a) == recorded(matches@, b, a));
    lemma_last_word(matches@, k, a, b);
    assert(is_last_word(matches@, k, b, a));
    lemma_last_word(matches@, k, b, a);
}

/// A pair that was never compared is unknown, which is not the same as sharing nothing.
pub proof fn lemma_a_pair_never_compared_is_unknown(
    matches: Vec<Match>,
    index: &MatchIndex,
    a: usize,
    b: usize,
    fps: &[VideoFingerprint],
    coverage: Option<Share>,
    span: Option<Span>,
    matched: Option<Footage>,
    shared: Option<Footage>,
)
    requires
        call_ensures(MatchIndex::new, (matches,), *index),
        forall|j: int|
            0 <= j < matches@.len() ==> !((#[trigger] matches@[j]).a == a && matches@[j].b == b)
                && !(matches@[j].a == b && matches@[j].b == a),
        call_ensures(MatchIndex::coverage, (index, a, b), coverage),
        call_ensures(MatchIndex::span, (index, a, b), span),
        call_ensures(MatchIndex::matched_seconds, (index, a, b, fps), matched),
        call_ensures(MatchIndex::shared_seconds, (index, a, b, fps), shared),
    ensures
        coverage is None,
        span is None,
        matched is None,
        shared is None,
{
    assert(index.link(a, b) == recorded(matches@, a, b));
    lemma_no_word(matches@, a, b);
}

/// Whether some footage is no longer than other footage, in seconds: a share of a runtime
/// each.
pub open spec fn is_no_longer(a: Footage, b: Footage) -> bool {
    (a.share.part() * a.runtime.num()) * (b.share.whole() * b.runtime.den()) <= (b.share.part()
        * b.runtime.num()) * (a.share.whole() * a.runtime.den())
}

/// What two files share is one of their two estimates: the shorter, where both runtimes
/// are known, and that of the file whose runtime is known, where one alone is. Where
/// neither is, it is unknown.
pub proof fn lemma_what_two_files_share(
    cov_a: Share,
    duration_a: Seconds,
    cov_b: Share,
    duration_b: Seconds,
    shared: Option<Footage>,
)
    requires
        call_ensures(overlap_seconds, (cov_a, duration_a, cov_b, duration_b), shared),
    ensures
        shared is None <==> duration_a.num() == 0 && duration_b.num() == 0,
        shared matches Some(f) ==> (f.share == cov_a && f.runtime == duration_a) || (f.share
            == cov_b && f.runtime == duration_b),
        shared matches Some(f) ==> {
            &&& f.runtime.num() > 0
            &&& duration_a.num() > 0 ==> is_no_longer(
                f,
                Footage { share: cov_a, runtime: duration_a },
            )
            &&& duration_b.num() > 0 ==> is_no_longer(
                f,
                Footage { share: cov_b, runtime: duration_b },
            )
        },
{
}

/// The figure for a pair is what its two ends share.
pub proof fn lemma_a_pair_shares_what_its_ends_do(
    matches: Vec<Match>,
    index: &MatchIndex,
    k: int,
    fps: &[VideoFingerprint],
    shared: Option<Footage>,
    told: Option<Footage>,
)
    requires
        call_ensures(MatchIndex::new, (matches,), *index),
        0 <= k < matches@.len(),
        matches@[k].a != matches@[k].b,
        is_last_word(matches@, k, matches@[k].a, matches@[k].b),
        call_ensures(
            MatchIndex::shared_seconds,
            (index, matches@[k].a, matches@[k].b, fps),
            shared,
        ),
        call_ensures(
            overlap_seconds,
            (
                matches@[k].coverage_a,
                fps@[matches@[k].a as int].duration,
                matches@[k].coverage_b,
                fps@[matches@[k].b as int].duration,
            ),
            told,
        ),
    ensures
        shared == told,
{
    let (a, b) = (matches@[k].a, matches@[k].b);
    assert(index.link(a, b) == recorded(matches@, a, b));
    assert(index.link(b, a) == recorded(matches@, b, a));
    lemma_last_word(matches@, k, a, b);
    assert(is_last_word(matches@, k, b, a));
    lemma_last_word(matches@, k, b, a);
}

proof fn lemma_found(index: &MatchIndex, subject: usize, group: Seq<usize>, runtime: Seconds)
    ensures
        forall|i: int|
            0 <= i < found_links(index, subject, group, runtime).len() ==> {
                let l = #[trigger] found_links(index, subject, group, runtime)[i];
                &&& group.contains(l.other)
                &&& l.other != subject
                &&& index.link(subject, l.other) is Some
                &&& l.matched_seconds.share == index.link(subject, l.other)->0.coverage
                &&& l.matched_seconds.runtime == runtime
                &&& l.span == index.link(subject, l.other)->0.span
            },
        forall|x: usize|
            #[trigger] group.contains(x) && x != subject && index.link(subject, x) is Some
                ==> has_link_to(found_links(index, subject, group, runtime), x),
        group.no_duplicates() ==> forall|i: int, j: int|
            0 <= i < j < found_links(index, subject, group, runtime).len() ==> (
            #[trigger] found_links(index, subject, group, runtime)[i]).other != (
            #[trigger] found_links(index, subject, group, runtime)[j]).other,
    decreases group.len(),
{
    if group.len() > 0 {
        let front = group.drop_last();
        lemma_found(index, subject, front, runtime);
        let less = found_links(index, subject, front, runtime);
        let all = found_links(index, subject, group, runtime);
        let last = group[group.len() - 1];
        assert(group.contains(last));
        assert forall|i: int| 0 <= i < all.len() implies {
            let l = #[trigger] all[i];
            &&& group.contains(l.other)
            &&& l.other != subject
            &&& index.link(subject, l.other) is Some
            &&& l.matched_seconds.share == index.link(subject, l.other)->0.coverage
            &&& l.matched_seconds.runtime == runtime
            &&& l.span == index.link(subject, l.other)->0.span
        } by {
            if i < less.len() {
                assert(all[i] == less[i]);
                assert(front.contains(less[i].other));
                let p = choose|p: int| 0 <= p < front.len() && front[p] == less[i].other;
                assert(group[p] == less[i].other);
            }
        }
        assert forall|x: usize|
            #[trigger] group.contains(x) && x != subject && index.link(subject, x)
                is Some implies has_link_to(all, x) by {
            if front.contains(x) {
                assert(has_link_to(less, x));
                let i = choose|i: int| 0 <= i < less.len() && (#[trigger] less[i]).other == x;
                assert(all[i] == less[i]);
            } else {
                let p = choose|p: int| 0 <= p < group.len() && group[p] == x;
                if p < front.len() {
                    assert(front[p] == x);
                }
                assert(all[less.len() as int].other == x);
            }
        }
        if group.no_duplicates() {
            assert forall|i: int, j: int| 0 <= i < j < all.len() implies (#[trigger] all[i]).other
                != (#[trigger] all[j]).other by {
                assert(all[i] == less[i]);
                if j < less.len() {
                    assert(all[j] == less[j]);
                } else {
                    assert(front.contains(less[i].other));
                    let p = choose|p: int| 0 <= p < front.len() && front[p] == less[i].other;
                    assert(group[p] == less[i].other);
                }
            }
        }
    }
}

/// Whether some links hold one to a file.
pub open spec fn has_link_to(links: Seq<GroupLink>, x: usize) -> bool {
    exists|i: int| 0 <= i < links.len() && (#[trigger] links[i]).other == x
}

/// The links of a file within a group are one for each other member that it was compared
/// with, and each says what looking that pair up does.
pub proof fn lemma_a_file_links_to_each_it_was_compared_with(
    index: &MatchIndex,
    subject: usize,
    group: &[usize],
    fps: &[VideoFingerprint],
    links: Vec<GroupLink>,
    x: usize,
    coverage: Option<Share>,
    span: Option<Span>,
)
    requires
        call_ensures(MatchIndex::links_of, (index, subject, group, fps), links),
        group@.no_duplicates(),
        group@.contains(x),
        call_ensures(MatchIndex::coverage, (index, subject, x), coverage),
        call_ensures(MatchIndex::span, (index, subject, x), span),
    ensures
        has_link_to(links@, x) <==> x != subject && coverage is Some,
        forall|i: int|
            0 <= i < links@.len() && (#[trigger] links@[i]).other == x ==> {
                &&& coverage == Some(links@[i].matched_seconds.share)
                &&& links@[i].matched_seconds.runtime == fps@[subject as int].duration
                &&& links@[i].span == span
            },
        forall|i: int, j: int|
            0 <= i < links@.len() && 0 <= j < links@.len() && (#[trigger] links@[i]).other == x && (
            #[trigger] links@[j]).other == x ==> i == j,
{
    let runtime = fps@[subject as int].duration;
    let all = found_links(index, subject, group@, runtime);
    lemma_found(index, subject, group@, runtime);
    lemma_same_members(links@, all);
    assert forall|i: int| 0 <= i < links@.len() implies all.contains(#[trigger] links@[i]) by {
        assert(links@.contains(links@[i]));
    }
    if has_link_to(links@, x) {
        let i = choose|i: int| 0 <= i < links@.len() && (#[trigger] links@[i]).other == x;
        assert(all.contains(links@[i]));
    }
    if x != subject && coverage is Some {
        assert(has_link_to(all, x));
        let i = choose|i: int| 0 <= i < all.len() && (#[trigger] all[i]).other == x;
        assert(all.contains(all[i]));
        assert(links@.contains(all[i]));
    }
    assert(all.no_duplicates());
    assert forall|i: int, j: int|
        0 <= i < links@.len() && 0 <= j < links@.len() && (#[trigger] links@[i]).other == x && (
        #[trigger] links@[j]).other == x implies i == j by {
        assert(all.contains(links@[i]) && all.contains(links@[j]));
        let p = choose|p: int| 0 <= p < all.len() && all[p] == links@[i];
        let q = choose|q: int| 0 <= q < all.len() && all[q] == links@[j];
        assert(p == q);
    }
}

/// Links stand with the longest footage first, and by path where two are as long.
pub proof fn lemma_links_stand_strongest_first(
    index: &MatchIndex,
    subject: usize,
    group: &[usize],
    fps: &[VideoFingerprint],
    links: Vec<GroupLink>,
    i: int,
    j: int,
    first: &str,
    second: &str,
    standing: Standing,
)
    requires
        call_ensures(MatchIndex::links_of, (index, subject, group, fps), links),
        0 <= i < j < links@.len(),
        first@ == fps@[links@[i].other as int].path@,
        second@ == fps@[links@[j].other as int].path@,
        call_ensures(text_standing, (first, second), standing),
    ensures
        is_no_longer(links@[j].matched_seconds, links@[i].matched_seconds),
        is_no_longer(links@[i].matched_seconds, links@[j].matched_seconds) ==> standing
            != Standing::After,
{
    assert((ByStrength { fps }).le(links@[i], links@[j]));
    lemma_text_total(
        fps@[links@[i].other as int].path@,
        fps@[links@[j].other as int].path@,
    );
}

/// The best link of a file is the first of all its links.
pub proof fn lemma_the_best_link_comes_first(
    index: &MatchIndex,
    subject: usize,
    group: &[usize],
    fps: &[VideoFingerprint],
    links: Vec<GroupLink>,
    best: Option<GroupLink>,
    i: int,
)
    requires
        call_ensures(MatchIndex::links_of, (index, subject, group, fps), links),
        call_ensures(MatchIndex::best_link_in_group, (index, subject, group, fps), best),
        0 <= i < links@.len(),
    ensures
        best is Some,
        links@.contains(best->0),
        is_no_longer(links@[i].matched_seconds, best->0.matched_seconds),
{
    let all = found_links(index, subject, group@, fps@[subject as int].duration);
    lemma_same_members(links@, all);
    assert(links@.contains(links@[i]));
    assert(all.contains(links@[i]));
    let p = choose|p: int| 0 <= p < all.len() && all[p] == links@[i];
    assert((ByStrength { fps }).le(best->0, all[p]));
}

} // verus!
