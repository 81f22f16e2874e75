//! What judging the copies of a video promises of each of them.

use crate::fates::{
    are_fates, are_grounds, are_group_fates, are_tiers, chosen, codec_of, contenders,
    contenders_upto, doomed_by, has_codec, has_unmeasured, held_by, is_champion, is_deleted,
    is_doomed, is_grounds, is_held, is_measured, is_single_ranking, is_single_tiering, is_standoff,
    judge_group, lemma_one_judgement, measured_in, placed, resolve, with_codec, Fates, Grounds,
    GroupFates, Priority,
};
use crate::fingerprint::VideoFingerprint;
use crate::seqs::{lemma_filter, lemma_filter_push, lemma_push_contains};
use vstd::prelude::*;

verus! {

/// Whether a ranking, asked for the best of some files, only ever names this one.
pub open spec fn always_picks<B: Fn(&Vec<usize>, Priority) -> usize>(
    best: &B,
    files: Seq<usize>,
    by: Priority,
    pick: usize,
) -> bool {
    forall|v: Vec<usize>, r: usize|
        v@ == files && #[trigger] best.ensures((&v, by), r) ==> r == pick
}

/// Whether a tiering, asked about a member of some files, only ever says this.
pub open spec fn always_says<L: Fn(&Vec<usize>, usize, Priority) -> bool>(
    leads: &L,
    files: Seq<usize>,
    x: usize,
    by: Priority,
    yes: bool,
) -> bool {
    forall|v: Vec<usize>, r: bool|
        v@ == files && #[trigger] leads.ensures((&v, x, by), r) ==> r == yes
}

/// Whether the contenders of a group, the members among both the longest and the
/// sharpest, are all of one codec.
pub open spec fn is_one_codec<L: Fn(&Vec<usize>, usize, Priority) -> bool>(
    fps: Seq<VideoFingerprint>,
    group: Seq<usize>,
    leads: &L,
) -> bool {
    forall|i: int, j: int|
        0 <= i < group.len() && 0 <= j < group.len() && !always_says(
            leads,
            group,
            group[i],
            Priority::Length,
            false,
        ) && !always_says(leads, group, group[i], Priority::Resolution, false) && !always_says(
            leads,
            group,
            group[j],
            Priority::Length,
            false,
        ) && !always_says(leads, group, group[j], Priority::Resolution, false) ==> fps[(
        #[trigger] group[i]) as int].codec@ == fps[(#[trigger] group[j]) as int].codec@
}

proof fn lemma_picked<B: Fn(&Vec<usize>, Priority) -> usize>(
    best: &B,
    files: Seq<usize>,
    by: Priority,
    pick: usize,
    r: usize,
)
    requires
        always_picks(best, files, by, pick),
        chosen(best, files, by, r),
    ensures
        r == pick,
{
}

proof fn lemma_said<L: Fn(&Vec<usize>, usize, Priority) -> bool>(
    leads: &L,
    group: Seq<usize>,
    by: Priority,
    tiers: Seq<bool>,
    at: int,
    yes: bool,
)
    requires
        are_tiers(leads, group, by, tiers),
        0 <= at < group.len(),
        always_says(leads, group, group[at], by, yes),
    ensures
        tiers[at] == yes,
{
    assert(placed(leads, group, group[at], by, tiers[at]));
}

proof fn lemma_contenders_lead<L: Fn(&Vec<usize>, usize, Priority) -> bool>(
    leads: &L,
    group: Seq<usize>,
    long: Seq<bool>,
    sharp: Seq<bool>,
    n: int,
)
    requires
        0 <= n <= group.len(),
    ensures
        forall|c: int|
            0 <= c < contenders_upto(group, long, sharp, n).len() ==> exists|i: int|
                0 <= i < n && long[i] && sharp[i] && group[i] == #[trigger] contenders_upto(
                    group,
                    long,
                    sharp,
                    n,
                )[c],
        forall|i: int|
            0 <= i < n && #[trigger] long[i] && sharp[i] ==> contenders_upto(
                group,
                long,
                sharp,
                n,
            ).contains(group[i]),
    decreases n,
{
    if n > 0 {
        lemma_contenders_lead(leads, group, long, sharp, n - 1);
        let less = contenders_upto(group, long, sharp, n - 1);
        let all = contenders_upto(group, long, sharp, n);
        lemma_push_contains(less, group[n - 1]);
        assert forall|c: int| 0 <= c < all.len() implies exists|i: int|
            0 <= i < n && long[i] && sharp[i] && group[i] == #[trigger] all[c] by {
            if c < less.len() {
                assert(all[c] == less[c]);
                let i = choose|i: int|
                    0 <= i < n - 1 && long[i] && sharp[i] && group[i] == less[c];
                assert(long[i]);
            } else {
                assert(long[n - 1] && sharp[n - 1] && group[n - 1] == all[c]);
            }
        }
    }
}

/// Contenders of one codec are no standoff.
proof fn lemma_no_standoff<
    B: Fn(&Vec<usize>, Priority) -> usize,
    L: Fn(&Vec<usize>, usize, Priority) -> bool,
>(
    fps: Seq<VideoFingerprint>,
    group: Seq<usize>,
    priority: Priority,
    best: &B,
    leads: &L,
    g: Grounds,
)
    requires
        is_grounds(fps, group, priority, best, leads, g),
        is_one_codec(fps, group, leads),
    ensures
        !is_standoff(g),
{
    let list = contenders(group, g);
    lemma_contenders_lead(leads, group, g.long, g.sharp, group.len() as int);
    if is_standoff(g) {
        assert(has_codec(fps, list, g.codecs[0]));
        assert(has_codec(fps, list, g.codecs[1]));
        let c = choose|c: int| 0 <= c < list.len() && codec_of(fps, #[trigger] list[c]) == g.codecs[0];
        let d = choose|d: int| 0 <= d < list.len() && codec_of(fps, #[trigger] list[d]) == g.codecs[1];
        let i = choose|i: int|
            0 <= i < group.len() && g.long[i] && g.sharp[i] && group[i] == list[c];
        let j = choose|j: int|
            0 <= j < group.len() && g.long[j] && g.sharp[j] && group[j] == list[d];
        assert(placed(leads, group, group[i], Priority::Length, g.long[i]));
        assert(placed(leads, group, group[i], Priority::Resolution, g.sharp[i]));
        assert(placed(leads, group, group[j], Priority::Length, g.long[j]));
        assert(placed(leads, group, group[j], Priority::Resolution, g.sharp[j]));
        assert(fps[group[i] as int].codec@ == fps[group[j] as int].codec@);
        assert(g.codecs[0] == g.codecs[1]);
    }
}

/// A group keeps the copy that its ranking names, and marks every other member that is
/// not held for review, and nothing else.
pub proof fn lemma_a_group_marks_all_but_its_pick_and_what_is_held<
    B: Fn(&Vec<usize>, Priority) -> usize,
    L: Fn(&Vec<usize>, usize, Priority) -> bool,
>(
    group: &Vec<usize>,
    fps: &[VideoFingerprint],
    priority: Priority,
    best: &B,
    leads: &L,
    f: GroupFates,
    pick: usize,
    x: usize,
)
    requires
        call_ensures(judge_group::<B, L>, (group, fps, priority, best, leads), f),
        always_picks(best, group@, priority, pick),
    ensures
        f.keep == pick,
        group@.contains(pick),
        f.doomed@.contains(x) <==> group@.contains(x) && x != pick && !f.review@.contains(x),
{
    let g = choose|g: Grounds|
        #[trigger] is_grounds(fps@, group@, priority, best, leads, g) && are_group_fates(
            fps@,
            group@,
            priority,
            g,
            f,
        );
    lemma_picked(best, group@, priority, pick, g.keep);
    assert(f.review@.contains(x) <==> is_held(fps@, group@, priority, g, x));
    assert(f.doomed@.contains(x) <==> is_doomed(fps@, group@, priority, g, x));
    assert(group@.contains(group@[g.at]));
}

/// Whatever is ranked by other than length, the best copy by length is held for review
/// where the pick is not among the longest and the two are different files.
pub proof fn lemma_a_longer_copy_is_held<
    B: Fn(&Vec<usize>, Priority) -> usize,
    L: Fn(&Vec<usize>, usize, Priority) -> bool,
>(
    group: &Vec<usize>,
    fps: &[VideoFingerprint],
    priority: Priority,
    best: &B,
    leads: &L,
    f: GroupFates,
    pick: usize,
    longest: usize,
)
    requires
        call_ensures(judge_group::<B, L>, (group, fps, priority, best, leads), f),
        priority == Priority::Resolution || priority == Priority::Quality || priority
            == Priority::Size,
        always_picks(best, group@, priority, pick),
        always_says(leads, group@, pick, Priority::Length, false),
        always_picks(best, group@, Priority::Length, longest),
        longest != pick,
    ensures
        f.review@.contains(longest),
        !f.doomed@.contains(longest),
{
    let g = choose|g: Grounds|
        #[trigger] is_grounds(fps@, group@, priority, best, leads, g) && are_group_fates(
            fps@,
            group@,
            priority,
            g,
            f,
        );
    lemma_picked(best, group@, priority, pick, g.keep);
    lemma_said(leads, group@, Priority::Length, g.long, g.at, false);
    assert(chosen(best, group@, Priority::Length, g.longest));
    lemma_picked(best, group@, Priority::Length, longest, g.longest);
    assert(f.review@.contains(longest) <==> is_held(fps@, group@, priority, g, longest));
    assert(f.doomed@.contains(longest) <==> is_doomed(fps@, group@, priority, g, longest));
}

/// Whatever is ranked by other than resolution, the best copy by resolution is held for
/// review where the pick is not among the sharpest, the two are different files, and no
/// longer copy than the pick is held already.
pub proof fn lemma_a_sharper_copy_is_held<
    B: Fn(&Vec<usize>, Priority) -> usize,
    L: Fn(&Vec<usize>, usize, Priority) -> bool,
>(
    group: &Vec<usize>,
    fps: &[VideoFingerprint],
    priority: Priority,
    best: &B,
    leads: &L,
    f: GroupFates,
    pick: usize,
    sharpest: usize,
)
    requires
        call_ensures(judge_group::<B, L>, (group, fps, priority, best, leads), f),
        priority == Priority::Length || priority == Priority::Quality || priority
            == Priority::Size,
        always_picks(best, group@, priority, pick),
        always_says(leads, group@, pick, Priority::Resolution, false),
        always_picks(best, group@, Priority::Resolution, sharpest),
        sharpest != pick,
        priority == Priority::Length || always_says(leads, group@, pick, Priority::Length, true)
            || always_picks(best, group@, Priority::Length, pick),
    ensures
        f.review@.contains(sharpest),
        !f.doomed@.contains(sharpest),
{
    let g = choose|g: Grounds|
        #[trigger] is_grounds(fps@, group@, priority, best, leads, g) && are_group_fates(
            fps@,
            group@,
            priority,
            g,
            f,
        );
    lemma_picked(best, group@, priority, pick, g.keep);
    lemma_said(leads, group@, Priority::Resolution, g.sharp, g.at, false);
    if always_says(leads, group@, pick, Priority::Length, true) {
        lemma_said(leads, group@, Priority::Length, g.long, g.at, true);
    }
    assert(chosen(best, group@, Priority::Resolution, g.sharpest));
    lemma_picked(best, group@, Priority::Resolution, sharpest, g.sharpest);
    assert(f.review@.contains(sharpest) <==> is_held(fps@, group@, priority, g, sharpest));
    assert(f.doomed@.contains(sharpest) <==> is_doomed(fps@, group@, priority, g, sharpest));
}

/// Every member whose runtime is unknown is held for review. So, beside it, is the pick
/// where its own runtime is known, and else the best of those whose runtime is.
pub proof fn lemma_an_unknown_runtime_holds_two<
    B: Fn(&Vec<usize>, Priority) -> usize,
    L: Fn(&Vec<usize>, usize, Priority) -> bool,
>(
    group: &Vec<usize>,
    fps: &[VideoFingerprint],
    priority: Priority,
    best: &B,
    leads: &L,
    f: GroupFates,
    pick: usize,
    i: int,
    known: usize,
)
    requires
        call_ensures(judge_group::<B, L>, (group, fps, priority, best, leads), f),
        always_picks(best, group@, priority, pick),
        0 <= i < group@.len(),
        fps@[group@[i] as int].duration.num() == 0,
        fps@[pick as int].duration.num() == 0 ==> always_picks(
            best,
            group@.filter(|y: usize| fps@[y as int].duration.num() > 0),
            priority,
            known,
        ),
    ensures
        f.review@.contains(group@[i]),
        fps@[pick as int].duration.num() > 0 ==> f.review@.contains(pick),
        (exists|j: int|
            0 <= j < group@.len() && fps@[#[trigger] group@[j] as int].duration.num() > 0) && fps@[
        pick as int].duration.num() == 0 ==> f.review@.contains(known),
{
    let g = choose|g: Grounds|
        #[trigger] is_grounds(fps@, group@, priority, best, leads, g) && are_group_fates(
            fps@,
            group@,
            priority,
            g,
            f,
        );
    lemma_picked(best, group@, priority, pick, g.keep);
    let x = group@[i];
    assert(group@.contains(x));
    assert(f.review@.contains(x) <==> is_held(fps@, group@, priority, g, x));
    assert(f.review@.contains(pick) <==> is_held(fps@, group@, priority, g, pick));
    assert(f.review@.contains(known) <==> is_held(fps@, group@, priority, g, known));
    assert(has_unmeasured(fps@, group@)) by {
        assert(!is_measured(&fps@[group@[i] as int]));
    }
    let keep = |y: usize| is_measured(&fps@[y as int]);
    let keep2 = |y: usize| fps@[y as int].duration.num() > 0;
    assert(keep =~= keep2);
    lemma_filter(group@, keep);
    assert(group@.contains(group@[g.at]));
    if fps@[pick as int].duration.num() > 0 {
        assert(measured_in(fps@, group@).contains(pick));
        assert(measured_in(fps@, group@).len() > 0);
    } else if exists|j: int|
        0 <= j < group@.len() && fps@[#[trigger] group@[j] as int].duration.num() > 0 {
        let j = choose|j: int|
            0 <= j < group@.len() && fps@[#[trigger] group@[j] as int].duration.num() > 0;
        assert(group@.contains(group@[j]));
        assert(measured_in(fps@, group@).contains(group@[j]));
        assert(measured_in(fps@, group@).len() > 0);
        assert(chosen(best, measured_in(fps@, group@), priority, g.measured));
        lemma_picked(best, measured_in(fps@, group@), priority, known, g.measured);
    }
}

/// Whether every runtime in a group is known.
pub open spec fn is_all_known(fps: Seq<VideoFingerprint>, group: Seq<usize>) -> bool {
    forall|i: int|
        0 <= i < group.len() ==> fps[#[trigger] group[i] as int].duration.num() > 0
}

/// A group that nothing is amiss with holds nothing for review: every runtime is known,
/// the contenders are of one codec, and by length and by resolution the pick is among
/// the best, unless that is what was ranked by.
pub proof fn lemma_an_ordinary_group_holds_nothing<
    B: Fn(&Vec<usize>, Priority) -> usize,
    L: Fn(&Vec<usize>, usize, Priority) -> bool,
>(
    group: &Vec<usize>,
    fps: &[VideoFingerprint],
    priority: Priority,
    best: &B,
    leads: &L,
    f: GroupFates,
    pick: usize,
)
    requires
        call_ensures(judge_group::<B, L>, (group, fps, priority, best, leads), f),
        always_picks(best, group@, priority, pick),
        is_all_known(fps@, group@),
        is_one_codec(fps@, group@, leads),
        priority == Priority::Length || always_says(leads, group@, pick, Priority::Length, true),
        priority == Priority::Resolution || always_says(
            leads,
            group@,
            pick,
            Priority::Resolution,
            true,
        ),
    ensures
        forall|x: usize| !#[trigger] f.review@.contains(x),
        forall|x: usize| #[trigger] f.doomed@.contains(x) <==> group@.contains(x) && x != pick,
{
    let g = choose|g: Grounds|
        #[trigger] is_grounds(fps@, group@, priority, best, leads, g) && are_group_fates(
            fps@,
            group@,
            priority,
            g,
            f,
        );
    lemma_picked(best, group@, priority, pick, g.keep);
    lemma_no_standoff(fps@, group@, priority, best, leads, g);
    if priority != Priority::Length {
        lemma_said(leads, group@, Priority::Length, g.long, g.at, true);
    }
    if priority != Priority::Resolution {
        lemma_said(leads, group@, Priority::Resolution, g.sharp, g.at, true);
    }
    assert forall|x: usize| !#[trigger] f.review@.contains(x) by {
        assert(f.review@.contains(x) <==> is_held(fps@, group@, priority, g, x));
        if group@.contains(x) {
            let m = choose|m: int| 0 <= m < group@.len() && group@[m] == x;
            assert(fps@[group@[m] as int].duration.num() > 0);
        }
    }
    assert forall|x: usize| #[trigger] f.doomed@.contains(x) <==> group@.contains(x) && x
        != pick by {
        assert(f.doomed@.contains(x) <==> is_doomed(fps@, group@, priority, g, x));
        assert(f.review@.contains(x) <==> is_held(fps@, group@, priority, g, x));
    }
}

/// In a group whose runtimes are all known and whose contenders are of one codec, a
/// longer copy than the pick is all that is held: a sharper one is then not.
pub proof fn lemma_a_longer_copy_is_held_alone<
    B: Fn(&Vec<usize>, Priority) -> usize,
    L: Fn(&Vec<usize>, usize, Priority) -> bool,
>(
    group: &Vec<usize>,
    fps: &[VideoFingerprint],
    priority: Priority,
    best: &B,
    leads: &L,
    f: GroupFates,
    pick: usize,
    longest: usize,
    x: usize,
)
    requires
        call_ensures(judge_group::<B, L>, (group, fps, priority, best, leads), f),
        always_picks(best, group@, priority, pick),
        is_all_known(fps@, group@),
        is_one_codec(fps@, group@, leads),
        priority == Priority::Resolution || priority == Priority::Quality || priority
            == Priority::Size,
        always_says(leads, group@, pick, Priority::Length, false),
        always_picks(best, group@, Priority::Length, longest),
        longest != pick,
    ensures
        f.review@.contains(x) <==> x == longest,
{
    let g = choose|g: Grounds|
        #[trigger] is_grounds(fps@, group@, priority, best, leads, g) && are_group_fates(
            fps@,
            group@,
            priority,
            g,
            f,
        );
    lemma_picked(best, group@, priority, pick, g.keep);
    lemma_no_standoff(fps@, group@, priority, best, leads, g);
    lemma_said(leads, group@, Priority::Length, g.long, g.at, false);
    assert(chosen(best, group@, Priority::Length, g.longest));
    lemma_picked(best, group@, Priority::Length, longest, g.longest);
    assert(f.review@.contains(x) <==> is_held(fps@, group@, priority, g, x));
    if group@.contains(x) {
        let m = choose|m: int| 0 <= m < group@.len() && group@[m] == x;
        assert(fps@[group@[m] as int].duration.num() > 0);
    }
}

/// Where two contenders are of different codecs, the best contender of each codec is
/// held for review: the pick, where it contends and has that codec, and else the one
/// that the ranking names among the contenders of that codec.
pub proof fn lemma_a_standoff_holds_the_best_of_each_codec<
    B: Fn(&Vec<usize>, Priority) -> usize,
    L: Fn(&Vec<usize>, usize, Priority) -> bool,
>(
    group: &Vec<usize>,
    fps: &[VideoFingerprint],
    priority: Priority,
    best: &B,
    leads: &L,
    f: GroupFates,
    pick: usize,
    long: spec_fn(usize) -> bool,
    sharp: spec_fn(usize) -> bool,
    i: int,
    j: int,
    champion: usize,
)
    requires
        call_ensures(judge_group::<B, L>, (group, fps, priority, best, leads), f),
        always_picks(best, group@, priority, pick),
        forall|k: int|
            0 <= k < group@.len() ==> always_says(
                leads,
                group@,
                #[trigger] group@[k],
                Priority::Length,
                long(group@[k]),
            ),
        forall|k: int|
            0 <= k < group@.len() ==> always_says(
                leads,
                group@,
                #[trigger] group@[k],
                Priority::Resolution,
                sharp(group@[k]),
            ),
        0 <= i < group@.len(),
        0 <= j < group@.len(),
        long(group@[i]) && sharp(group@[i]),
        long(group@[j]) && sharp(group@[j]),
        fps@[group@[i] as int].codec@ != fps@[group@[j] as int].codec@,
        always_picks(
            best,
            group@.filter(
                |y: usize|
                    long(y) && sharp(y) && fps@[y as int].codec@ == fps@[group@[i] as int].codec@,
            ),
            priority,
            champion,
        ),
    ensures
        long(pick) && sharp(pick) && fps@[pick as int].codec@ == fps@[group@[i] as int].codec@
            ==> f.review@.contains(pick),
        !(long(pick) && sharp(pick) && fps@[pick as int].codec@ == fps@[group@[i] as int].codec@)
            ==> f.review@.contains(champion),
{
    let g = choose|g: Grounds|
        #[trigger] is_grounds(fps@, group@, priority, best, leads, g) && are_group_fates(
            fps@,
            group@,
            priority,
            g,
            f,
        );
    lemma_picked(best, group@, priority, pick, g.keep);
    assert forall|k: int| 0 <= k < group@.len() implies #[trigger] g.long[k] == long(group@[k])
        && g.sharp[k] == sharp(group@[k]) by {
        lemma_said(leads, group@, Priority::Length, g.long, k, long(group@[k]));
        lemma_said(leads, group@, Priority::Resolution, g.sharp, k, sharp(group@[k]));
    }
    let list = contenders(group@, g);
    let codec = fps@[group@[i] as int].codec@;
    let other = fps@[group@[j] as int].codec@;
    let both = |y: usize| long(y) && sharp(y);
    lemma_contenders_filtered(group@, g.long, g.sharp, both, group@.len() as int);
    assert(group@.take(group@.len() as int) =~= group@);
    lemma_filter(group@, both);
    assert(group@.contains(group@[i]) && group@.contains(group@[j]));
    assert(list.contains(group@[i]) && list.contains(group@[j]));
    let a = choose|a: int| 0 <= a < list.len() && list[a] == group@[i];
    let b = choose|b: int| 0 <= b < list.len() && list[b] == group@[j];
    assert(g.codecs.contains(codec_of(fps@, list[a])));
    assert(g.codecs.contains(codec_of(fps@, list[b])));
    let k = choose|k: int| 0 <= k < g.codecs.len() && g.codecs[k] == codec;
    let l = choose|l: int| 0 <= l < g.codecs.len() && g.codecs[l] == other;
    assert(k != l);
    assert(is_standoff(g));
    let winner = g.champions[k];
    assert(is_champion(fps@, list, priority, best, g.keep, g.codecs[k], g.champions[k]));
    assert(g.champions.contains(winner));
    assert(group@.contains(group@[g.at]));
    assert(list.contains(pick) <==> long(pick) && sharp(pick));
    let of = |y: usize| codec_of(fps@, y) == codec;
    let all = |y: usize| long(y) && sharp(y) && fps@[y as int].codec@ == fps@[group@[i] as int].codec@;
    lemma_filtered_twice(group@, both, of, all);
    assert(with_codec(fps@, list, codec) == group@.filter(all));
    assert(f.review@.contains(winner) <==> is_held(fps@, group@, priority, g, winner));
    if !(list.contains(pick) && codec_of(fps@, pick) == codec) {
        assert(chosen(best, with_codec(fps@, list, codec), priority, winner));
        lemma_picked(best, group@.filter(all), priority, champion, winner);
    }
}

proof fn lemma_contenders_filtered(
    group: Seq<usize>,
    long: Seq<bool>,
    sharp: Seq<bool>,
    both: spec_fn(usize) -> bool,
    n: int,
)
    requires
        0 <= n <= group.len(),
        forall|k: int| 0 <= k < group.len() ==> (#[trigger] long[k] && sharp[k]) == both(group[k]),
    ensures
        contenders_upto(group, long, sharp, n) == group.take(n).filter(both),
    decreases n,
{
    if n > 0 {
        assert((long[n - 1] && sharp[n - 1]) == both(group[n - 1]));
        lemma_contenders_filtered(group, long, sharp, both, n - 1);
        assert(group.take(n) =~= group.take(n - 1).push(group[n - 1]));
        lemma_filter_push(group.take(n - 1), group[n - 1], both);
    } else {
        reveal(Seq::filter);
        assert(group.take(0) =~= Seq::<usize>::empty());
    }
}

proof fn lemma_filtered_twice(
    s: Seq<usize>,
    p: spec_fn(usize) -> bool,
    q: spec_fn(usize) -> bool,
    both: spec_fn(usize) -> bool,
)
    requires
        forall|x: usize| #[trigger] both(x) == (p(x) && q(x)),
    ensures
        s.filter(p).filter(q) == s.filter(both),
    decreases s.len(),
{
    reveal(Seq::filter);
    if s.len() > 0 {
        lemma_filtered_twice(s.drop_last(), p, q, both);
        let x = s.last();
        assert(s =~= s.drop_last().push(x));
        lemma_filter_push(s.drop_last(), x, p);
        lemma_filter_push(s.drop_last(), x, both);
        lemma_filter_push(s.drop_last().filter(p), x, q);
        assert(both(x) == (p(x) && q(x)));
    }
}

/// Over all groups, whatever is ranked by other than length, the best copy by length of
/// a group whose pick is another file and not among the longest is held for review, and
/// so never deleted.
pub proof fn lemma_a_longer_copy_is_never_deleted<
    B: Fn(&Vec<usize>, Priority) -> usize,
    L: Fn(&Vec<usize>, usize, Priority) -> bool,
>(
    groups: &Vec<Vec<usize>>,
    fps: &[VideoFingerprint],
    priority: Priority,
    best: &B,
    leads: &L,
    f: Fates,
    i: int,
    pick: usize,
    longest: usize,
)
    requires
        call_ensures(resolve::<B, L>, (groups, fps, priority, best, leads), f),
        0 <= i < groups@.len(),
        priority == Priority::Resolution || priority == Priority::Quality || priority
            == Priority::Size,
        always_picks(best, groups@[i]@, priority, pick),
        always_says(leads, groups@[i]@, pick, Priority::Length, false),
        always_picks(best, groups@[i]@, Priority::Length, longest),
        longest != pick,
        longest < fps@.len(),
    ensures
        f.review@[longest as int],
        !f.delete@.contains(longest),
{
    let gs = choose|gs: Seq<Grounds>|
        #[trigger] are_grounds(fps@, groups@, priority, best, leads, gs) && are_fates(
            fps@,
            groups@,
            priority,
            gs,
            f,
        );
    let group = groups@[i]@;
    assert(is_grounds(fps@, group, priority, best, leads, gs[i]));
    let g = gs[i];
    lemma_picked(best, group, priority, pick, g.keep);
    lemma_said(leads, group, Priority::Length, g.long, g.at, false);
    assert(chosen(best, group, Priority::Length, g.longest));
    lemma_picked(best, group, Priority::Length, longest, g.longest);
    assert(is_held(fps@, group, priority, gs[i], longest));
    assert(held_by(fps@, groups@, priority, gs, groups@.len() as int, longest));
}

/// A file is held for review where some group holds it, marked where some group marks
/// it, and deleted where it is marked and not held. Deletions come in the order of the
/// files, once each.
pub proof fn lemma_a_file_fares_as_its_groups_say<
    B: Fn(&Vec<usize>, Priority) -> usize,
    L: Fn(&Vec<usize>, usize, Priority) -> bool,
>(
    groups: &Vec<Vec<usize>>,
    fps: &[VideoFingerprint],
    priority: Priority,
    best: &B,
    leads: &L,
    f: Fates,
    verdicts: Seq<GroupFates>,
    x: usize,
)
    requires
        is_single_ranking(best),
        is_single_tiering(leads),
        call_ensures(resolve::<B, L>, (groups, fps, priority, best, leads), f),
        verdicts.len() == groups@.len(),
        forall|i: int|
            0 <= i < groups@.len() ==> call_ensures(
                judge_group::<B, L>,
                (&groups@[i], fps, priority, best, leads),
                #[trigger] verdicts[i],
            ),
        x < fps@.len(),
    ensures
        f.review@.len() == fps@.len(),
        f.doomed@.len() == fps@.len(),
        f.review@[x as int] <==> exists|i: int|
            0 <= i < groups@.len() && (#[trigger] verdicts[i]).review@.contains(x),
        f.doomed@[x as int] <==> exists|i: int|
            0 <= i < groups@.len() && (#[trigger] verdicts[i]).doomed@.contains(x),
        f.delete@.contains(x) <==> f.doomed@[x as int] && !f.review@[x as int],
        forall|i: int, j: int|
            0 <= i < j < f.delete@.len() ==> #[trigger] f.delete@[i] < #[trigger] f.delete@[j],
{
    let gs = choose|gs: Seq<Grounds>|
        #[trigger] are_grounds(fps@, groups@, priority, best, leads, gs) && are_fates(
            fps@,
            groups@,
            priority,
            gs,
            f,
        );
    assert forall|i: int| 0 <= i < groups@.len() implies {
        &&& (#[trigger] verdicts[i]).review@.contains(x) <==> is_held(
            fps@,
            groups@[i]@,
            priority,
            gs[i],
            x,
        )
        &&& verdicts[i].doomed@.contains(x) <==> is_doomed(fps@, groups@[i]@, priority, gs[i], x)
    } by {
        let group = groups@[i]@;
        let v = verdicts[i];
        let g = choose|g: Grounds|
            #[trigger] is_grounds(fps@, group, priority, best, leads, g) && are_group_fates(
                fps@,
                group,
                priority,
                g,
                v,
            );
        assert(is_grounds(fps@, group, priority, best, leads, gs[i]));
        lemma_one_judgement(fps@, group, priority, best, leads, g, gs[i], x);
        assert(v.review@.contains(x) <==> is_held(fps@, group, priority, g, x));
        assert(v.doomed@.contains(x) <==> is_doomed(fps@, group, priority, g, x));
    }
    let n = groups@.len() as int;
    if held_by(fps@, groups@, priority, gs, n, x) {
        let i = choose|i: int|
            0 <= i < n && is_held(fps@, groups@[i]@, priority, #[trigger] gs[i], x);
        assert(verdicts[i].review@.contains(x));
    }
    if doomed_by(fps@, groups@, priority, gs, n, x) {
        let i = choose|i: int|
            0 <= i < n && is_doomed(fps@, groups@[i]@, priority, #[trigger] gs[i], x);
        assert(verdicts[i].doomed@.contains(x));
    }
    if exists|i: int| 0 <= i < groups@.len() && (#[trigger] verdicts[i]).review@.contains(x) {
        let i = choose|i: int|
            0 <= i < groups@.len() && (#[trigger] verdicts[i]).review@.contains(x);
        assert(is_held(fps@, groups@[i]@, priority, gs[i], x));
    }
    if exists|i: int| 0 <= i < groups@.len() && (#[trigger] verdicts[i]).doomed@.contains(x) {
        let i = choose|i: int|
            0 <= i < groups@.len() && (#[trigger] verdicts[i]).doomed@.contains(x);
        assert(is_doomed(fps@, groups@[i]@, priority, gs[i], x));
    }
    assert(f.delete@.contains(x) <==> is_deleted(fps@, groups@, priority, gs, x));
}

} // verus!
