//! Which files of the duplicate groups are kept, held for review, or marked for
//! deletion.

use crate::fingerprint::VideoFingerprint;
use crate::seqs::{lemma_filter, lemma_filter_push, lemma_one_ascending, lemma_push_contains};
use crate::text::{text_standing, Standing};
use vstd::prelude::*;

verus! {

/// What decides which copy is kept.
#[derive(Clone, Copy, Debug, PartialEq, Eq, Structural)]
pub enum Priority {
    Length,
    Resolution,
    Quality,
    Size,
}

/// Whether a file's runtime is known.
pub open spec fn is_measured(fp: &VideoFingerprint) -> bool {
    fp.duration.num() > 0
}

/// Whether every member of a group is a file.
pub open spec fn in_range(group: Seq<usize>, n: nat) -> bool {
    forall|i: int| 0 <= i < group.len() ==> #[trigger] group[i] < n
}

/// What a ranking has to do: it ranks any files there are, and names one of them.
pub open spec fn is_ranking<B: Fn(&Vec<usize>, Priority) -> usize>(best: &B, n: nat) -> bool {
    &&& forall|v: Vec<usize>, by: Priority|
        v@.len() > 0 && in_range(v@, n) ==> #[trigger] best.requires((&v, by))
    &&& forall|v: Vec<usize>, by: Priority, r: usize| #[trigger]
        best.ensures((&v, by), r) ==> v@.contains(r)
}

/// What a tiering has to do: it says of any member of any group whether it is among
/// the best.
pub open spec fn is_tiering<L: Fn(&Vec<usize>, usize, Priority) -> bool>(leads: &L, n: nat) -> bool {
    forall|v: Vec<usize>, x: usize, by: Priority|
        v@.contains(x) && in_range(v@, n) ==> #[trigger] leads.requires((&v, x, by))
}

/// Whether the ranking named this file the best of some.
pub open spec fn chosen<B: Fn(&Vec<usize>, Priority) -> usize>(
    best: &B,
    members: Seq<usize>,
    by: Priority,
    r: usize,
) -> bool {
    exists|v: Vec<usize>| v@ == members && #[trigger] best.ensures((&v, by), r)
}

/// Whether the tiering said this of a member.
pub open spec fn placed<L: Fn(&Vec<usize>, usize, Priority) -> bool>(
    leads: &L,
    members: Seq<usize>,
    x: usize,
    by: Priority,
    yes: bool,
) -> bool {
    exists|v: Vec<usize>| v@ == members && #[trigger] leads.ensures((&v, x, by), yes)
}

/// What the ranking said of one group, and what follows from it.
pub struct Grounds {
    /// The best copy, and its place in the group.
    pub keep: usize,
    pub at: int,
    /// Which members are among the longest, and which among the sharpest.
    pub long: Seq<bool>,
    pub sharp: Seq<bool>,
    /// The best copies by length and by resolution, where they were asked for.
    pub longest: usize,
    pub sharpest: usize,
    /// The best of the members whose runtime is known.
    pub measured: usize,
    /// The codecs of the contenders, and the best copy of each.
    pub codecs: Seq<Seq<char>>,
    pub champions: Seq<usize>,
}

/// The members whose runtime is known.
pub open spec fn measured_in(fps: Seq<VideoFingerprint>, group: Seq<usize>) -> Seq<usize> {
    group.filter(|x: usize| is_measured(&fps[x as int]))
}

/// Whether some member's runtime is unknown.
pub open spec fn has_unmeasured(fps: Seq<VideoFingerprint>, group: Seq<usize>) -> bool {
    exists|i: int| 0 <= i < group.len() && !is_measured(&fps[#[trigger] group[i] as int])
}

/// The first `n` members that are among the longest and the sharpest.
pub open spec fn contenders_upto(
    group: Seq<usize>,
    long: Seq<bool>,
    sharp: Seq<bool>,
    n: int,
) -> Seq<usize>
    decreases n,
{
    if n <= 0 {
        Seq::empty()
    } else {
        let less = contenders_upto(group, long, sharp, n - 1);
        if long[n - 1] && sharp[n - 1] {
            less.push(group[n - 1])
        } else {
            less
        }
    }
}

/// The members that nothing codec-blind separates.
pub open spec fn contenders(group: Seq<usize>, g: Grounds) -> Seq<usize> {
    contenders_upto(group, g.long, g.sharp, group.len() as int)
}

/// The codec of a file.
pub open spec fn codec_of(fps: Seq<VideoFingerprint>, x: usize) -> Seq<char> {
    fps[x as int].codec@
}

/// Those of some files that have this codec.
pub open spec fn with_codec(fps: Seq<VideoFingerprint>, list: Seq<usize>, codec: Seq<char>) -> Seq<
    usize,
> {
    list.filter(|x: usize| codec_of(fps, x) == codec)
}

/// Every codec of some files, once each.
pub open spec fn are_codecs(
    fps: Seq<VideoFingerprint>,
    list: Seq<usize>,
    codecs: Seq<Seq<char>>,
) -> bool {
    &&& codecs.no_duplicates()
    &&& forall|i: int| 0 <= i < list.len() ==> codecs.contains(codec_of(fps, #[trigger] list[i]))
    &&& forall|k: int| 0 <= k < codecs.len() ==> has_codec(fps, list, #[trigger] codecs[k])
}

/// Whether some file of a list has this codec.
pub open spec fn has_codec(fps: Seq<VideoFingerprint>, list: Seq<usize>, codec: Seq<char>) -> bool {
    exists|i: int| 0 <= i < list.len() && codec_of(fps, #[trigger] list[i]) == codec
}

/// Whether the contenders are of several codecs, so that nothing can rank them.
pub open spec fn is_standoff(g: Grounds) -> bool {
    g.codecs.len() > 1
}

/// Whether the best copy is not among the longest, and length was not what was asked
/// for.
pub open spec fn falls_short(g: Grounds, priority: Priority) -> bool {
    priority != Priority::Length && !g.long[g.at]
}

/// Whether the best copy is not among the sharpest, and resolution was not what was
/// asked for.
pub open spec fn falls_blurred(g: Grounds, priority: Priority) -> bool {
    priority != Priority::Resolution && !g.sharp[g.at]
}

/// Whether a longer copy is worth a look.
pub open spec fn shows_longest(g: Grounds, priority: Priority) -> bool {
    falls_short(g, priority) && g.longest != g.keep
}

/// Whether a sharper copy is worth a look. A longer one goes first.
pub open spec fn shows_sharpest(g: Grounds, priority: Priority) -> bool {
    !shows_longest(g, priority) && falls_blurred(g, priority) && g.sharpest != g.keep
}

/// Whether the ranking said all this of a group.
pub open spec fn is_grounds<
    B: Fn(&Vec<usize>, Priority) -> usize,
    L: Fn(&Vec<usize>, usize, Priority) -> bool,
>(
    fps: Seq<VideoFingerprint>,
    group: Seq<usize>,
    priority: Priority,
    best: &B,
    leads: &L,
    g: Grounds,
) -> bool {
    &&& chosen(best, group, priority, g.keep)
    &&& 0 <= g.at < group.len()
    &&& group[g.at] == g.keep
    &&& are_tiers(leads, group, Priority::Length, g.long)
    &&& are_tiers(leads, group, Priority::Resolution, g.sharp)
    &&& falls_short(g, priority) ==> chosen(best, group, Priority::Length, g.longest)
    &&& !shows_longest(g, priority) && falls_blurred(g, priority) ==> chosen(
        best,
        group,
        Priority::Resolution,
        g.sharpest,
    )
    &&& has_unmeasured(fps, group) && measured_in(fps, group).len() > 0 ==> if is_measured(
        &fps[g.keep as int],
    ) {
        g.measured == g.keep
    } else {
        chosen(best, measured_in(fps, group), priority, g.measured)
    }
    &&& are_codecs(fps, contenders(group, g), g.codecs)
    &&& is_standoff(g) ==> are_champions(fps, group, priority, best, g)
}

/// Where each member stands.
pub open spec fn are_tiers<L: Fn(&Vec<usize>, usize, Priority) -> bool>(
    leads: &L,
    group: Seq<usize>,
    by: Priority,
    tiers: Seq<bool>,
) -> bool {
    tiers.len() == group.len() && forall|i: int|
        0 <= i < group.len() ==> placed(leads, group, group[i], by, #[trigger] tiers[i])
}

/// The best copy of each codec: the group's own pick for its codec, where it contends.
pub open spec fn are_champions<B: Fn(&Vec<usize>, Priority) -> usize>(
    fps: Seq<VideoFingerprint>,
    group: Seq<usize>,
    priority: Priority,
    best: &B,
    g: Grounds,
) -> bool {
    &&& g.champions.len() == g.codecs.len()
    &&& forall|k: int|
        0 <= k < g.codecs.len() ==> is_champion(
            fps,
            contenders(group, g),
            priority,
            best,
            g.keep,
            g.codecs[k],
            #[trigger] g.champions[k],
        )
}

/// The best copy of one codec.
pub open spec fn is_champion<B: Fn(&Vec<usize>, Priority) -> usize>(
    fps: Seq<VideoFingerprint>,
    list: Seq<usize>,
    priority: Priority,
    best: &B,
    keep: usize,
    codec: Seq<char>,
    champion: usize,
) -> bool {
    if list.contains(keep) && codec_of(fps, keep) == codec {
        champion == keep
    } else {
        chosen(best, with_codec(fps, list, codec), priority, champion)
    }
}

/// Whether a group wants this file held for review.
///
/// Every file whose runtime is unknown is, beside the best of those whose runtime is
/// known. So is a longer, or else a sharper, copy than the best one. And where the
/// contenders are of several codecs, so is the best copy of each.
pub open spec fn is_held(
    fps: Seq<VideoFingerprint>,
    group: Seq<usize>,
    priority: Priority,
    g: Grounds,
    x: usize,
) -> bool {
    ||| group.contains(x) && !is_measured(&fps[x as int])
    ||| has_unmeasured(fps, group) && measured_in(fps, group).len() > 0 && x == g.measured
    ||| shows_longest(g, priority) && x == g.longest
    ||| shows_sharpest(g, priority) && x == g.sharpest
    ||| is_standoff(g) && g.champions.contains(x)
}

/// Whether a group marks this file for deletion: it is neither the best copy nor held.
pub open spec fn is_doomed(
    fps: Seq<VideoFingerprint>,
    group: Seq<usize>,
    priority: Priority,
    g: Grounds,
    x: usize,
) -> bool {
    group.contains(x) && x != g.keep && !is_held(fps, group, priority, g, x)
}

/// What one group wants done with its members.
pub struct GroupFates {
    pub keep: usize,
    pub review: Vec<usize>,
    pub doomed: Vec<usize>,
}

/// Whether these are the fates one group's ranking leads to.
pub open spec fn are_group_fates(
    fps: Seq<VideoFingerprint>,
    group: Seq<usize>,
    priority: Priority,
    g: Grounds,
    f: GroupFates,
) -> bool {
    &&& f.keep == g.keep
    &&& forall|x: usize| #[trigger]
        f.review@.contains(x) <==> is_held(fps, group, priority, g, x)
    &&& forall|x: usize| #[trigger]
        f.doomed@.contains(x) <==> is_doomed(fps, group, priority, g, x)
}

/// Whether a list holds a file.
fn holds(list: &Vec<usize>, x: usize) -> (yes: bool)
    ensures
        yes <==> list@.contains(x),
{
    for i in 0..list.len()
        invariant
            forall|j: int| 0 <= j < i ==> #[trigger] list@[j] != x,
    {
        if list[i] == x {
            assert(list@.contains(list@[i as int]));
            return true;
        }
    }
    false
}

/// Whether two texts are the same.
fn same(a: &String, b: &String) -> (yes: bool)
    ensures
        yes <==> a@ == b@,
{
    match text_standing(a.as_str(), b.as_str()) {
        Standing::Before => false,
        Standing::Same => true,
        Standing::After => false,
    }
}

/// Where each member stands by one metric.
fn tiers<L>(group: &Vec<usize>, n: usize, by: Priority, leads: &L) -> (list: Vec<bool>) where
    L: Fn(&Vec<usize>, usize, Priority) -> bool,

    requires
        is_tiering(leads, n as nat),
        in_range(group@, n as nat),
    ensures
        are_tiers(leads, group@, by, list@),
{
    let mut list: Vec<bool> = Vec::new();
    for i in 0..group.len()
        invariant
            is_tiering(leads, n as nat),
            in_range(group@, n as nat),
            list@.len() == i,
            forall|j: int| 0 <= j < i ==> placed(leads, group@, group@[j], by, #[trigger] list@[j]),
    {
        let x = group[i];
        assert(group@.contains(x));
        assert(leads.requires((group, x, by)));
        let yes = leads(group, x, by);
        assert(leads.ensures((group, x, by), yes));
        list.push(yes);
    }
    list
}

/// The members whose runtime is known, and those whose runtime is not.
fn split_measured(group: &Vec<usize>, fps: &[VideoFingerprint]) -> (out: (Vec<usize>, Vec<usize>))
    requires
        in_range(group@, fps@.len()),
    ensures
        out.0@ == measured_in(fps@, group@),
        forall|x: usize| #[trigger]
            out.1@.contains(x) <==> group@.contains(x) && !is_measured(&fps@[x as int]),
        out.1@.len() > 0 <==> has_unmeasured(fps@, group@),
{
    let mut known: Vec<usize> = Vec::new();
    let mut unknown: Vec<usize> = Vec::new();
    let ghost keep = |x: usize| is_measured(&fps@[x as int]);
    proof {
        reveal(Seq::filter);
        assert(group@.take(0) =~= Seq::<usize>::empty());
    }
    for i in 0..group.len()
        invariant
            in_range(group@, fps@.len()),
            keep == (|x: usize| is_measured(&fps@[x as int])),
            known@ == group@.take(i as int).filter(keep),
            forall|x: usize| #[trigger]
                unknown@.contains(x) <==> group@.take(i as int).contains(x) && !is_measured(
                    &fps@[x as int],
                ),
            unknown@.len() > 0 <==> has_unmeasured(fps@, group@.take(i as int)),
    {
        let x = group[i];
        let ghost before = unknown@;
        let ghost part = group@.take(i as int);
        let ghost more = group@.take(i + 1);
        proof {
            assert(more =~= part.push(x));
            lemma_filter_push(part, x, keep);
            lemma_push_contains(part, x);
            lemma_push_contains(before, x);
            if has_unmeasured(fps@, part) {
                let j = choose|j: int|
                    0 <= j < part.len() && !is_measured(&fps@[#[trigger] part[j] as int]);
                assert(more[j] == part[j]);
            }
            if has_unmeasured(fps@, more) {
                let j = choose|j: int|
                    0 <= j < more.len() && !is_measured(&fps@[#[trigger] more[j] as int]);
                if j < part.len() {
                    assert(part[j] == more[j]);
                }
            }
            assert(more[i as int] == x);
        }
        if fps[x].duration.is_positive() {
            known.push(x);
        } else {
            unknown.push(x);
        }
    }
    assert(group@.take(group@.len() as int) =~= group@);
    (known, unknown)
}

/// The members that are among the longest and the sharpest.
fn contending(group: &Vec<usize>, long: &Vec<bool>, sharp: &Vec<bool>) -> (list: Vec<usize>)
    requires
        long@.len() == group@.len(),
        sharp@.len() == group@.len(),
    ensures
        list@ == contenders_upto(group@, long@, sharp@, group@.len() as int),
        forall|i: int| 0 <= i < list@.len() ==> group@.contains(#[trigger] list@[i]),
{
    let mut list: Vec<usize> = Vec::new();
    for i in 0..group.len()
        invariant
            long@.len() == group@.len(),
            sharp@.len() == group@.len(),
            list@ == contenders_upto(group@, long@, sharp@, i as int),
            forall|i: int| 0 <= i < list@.len() ==> group@.contains(#[trigger] list@[i]),
    {
        if long[i] && sharp[i] {
            list.push(group[i]);
            assert(group@.contains(group@[i as int]));
        }
    }
    list
}

/// One file of each codec in a list.
fn codec_samples(list: &Vec<usize>, fps: &[VideoFingerprint]) -> (samples: Vec<usize>)
    requires
        in_range(list@, fps@.len()),
    ensures
        are_codecs(fps@, list@, codecs_at(fps@, samples@)),
        in_range(samples@, fps@.len()),
{
    let mut samples: Vec<usize> = Vec::new();
    for i in 0..list.len()
        invariant
            in_range(list@, fps@.len()),
            in_range(samples@, fps@.len()),
            codecs_at(fps@, samples@).no_duplicates(),
            forall|j: int|
                0 <= j < i ==> codecs_at(fps@, samples@).contains(
                    codec_of(fps@, #[trigger] list@[j]),
                ),
            forall|k: int|
                0 <= k < samples@.len() ==> has_codec(
                    fps@,
                    list@,
                    codec_of(fps@, #[trigger] samples@[k]),
                ),
    {
        let x = list[i];
        let ghost before = samples@;
        let ghost seen = codecs_at(fps@, before);
        let mut known = false;
        for k in 0..samples.len()
            invariant
                x < fps@.len(),
                in_range(samples@, fps@.len()),
                samples@ == before,
                known <==> exists|m: int|
                    0 <= m < k && codec_of(fps@, #[trigger] samples@[m]) == codec_of(fps@, x),
        {
            if same(&fps[samples[k]].codec, &fps[x].codec) {
                known = true;
            }
        }
        if !known {
            samples.push(x);
            proof {
                let now = codecs_at(fps@, samples@);
                assert(now =~= seen.push(codec_of(fps@, x)));
                assert forall|a: int, b: int|
                    0 <= a < now.len() && 0 <= b < now.len() && a != b implies now[a] != now[b] by {
                    if a == before.len() {
                        assert(codec_of(fps@, before[b]) != codec_of(fps@, x));
                    } else if b == before.len() {
                        assert(codec_of(fps@, before[a]) != codec_of(fps@, x));
                    } else {
                        assert(seen[a] != seen[b]);
                    }
                }
                lemma_push_contains(seen, codec_of(fps@, x));
                assert(has_codec(fps@, list@, codec_of(fps@, list@[i as int])));
            }
        } else {
            proof {
                let m = choose|m: int|
                    0 <= m < samples@.len() && codec_of(fps@, #[trigger] samples@[m]) == codec_of(
                        fps@,
                        x,
                    );
                assert(seen[m] == codec_of(fps@, x));
                assert(seen.contains(codec_of(fps@, x)));
            }
        }
    }
    proof {
        let codecs = codecs_at(fps@, samples@);
        assert forall|k: int| 0 <= k < codecs.len() implies has_codec(
            fps@,
            list@,
            #[trigger] codecs[k],
        ) by {
            assert(has_codec(fps@, list@, codec_of(fps@, samples@[k])));
        }
    }
    samples
}

/// The codecs of some files.
pub open spec fn codecs_at(fps: Seq<VideoFingerprint>, list: Seq<usize>) -> Seq<Seq<char>> {
    Seq::new(list.len(), |k: int| codec_of(fps, list[k]))
}

/// Those of some files that share a codec with one.
fn sharing_codec(list: &Vec<usize>, fps: &[VideoFingerprint], x: usize) -> (out: Vec<usize>)
    requires
        in_range(list@, fps@.len()),
        x < fps@.len(),
    ensures
        out@ == with_codec(fps@, list@, codec_of(fps@, x)),
{
    let mut out: Vec<usize> = Vec::new();
    let ghost keep = |y: usize| codec_of(fps@, y) == codec_of(fps@, x);
    proof {
        reveal(Seq::filter);
        assert(list@.take(0) =~= Seq::<usize>::empty());
    }
    for i in 0..list.len()
        invariant
            in_range(list@, fps@.len()),
            x < fps@.len(),
            keep == (|y: usize| codec_of(fps@, y) == codec_of(fps@, x)),
            out@ == list@.take(i as int).filter(keep),
    {
        proof {
            assert(list@.take(i + 1) =~= list@.take(i as int).push(list@[i as int]));
            lemma_filter_push(list@.take(i as int), list@[i as int], keep);
        }
        if same(&fps[list[i]].codec, &fps[x].codec) {
            out.push(list[i]);
        }
    }
    assert(list@.take(list@.len() as int) =~= list@);
    out
}

/// The best copy of each codec.
fn champions<B>(
    list: &Vec<usize>,
    samples: &Vec<usize>,
    fps: &[VideoFingerprint],
    priority: Priority,
    keep: usize,
    best: &B,
) -> (out: Vec<usize>) where B: Fn(&Vec<usize>, Priority) -> usize
    requires
        is_ranking(best, fps@.len()),
        in_range(list@, fps@.len()),
        in_range(samples@, fps@.len()),
        are_codecs(fps@, list@, codecs_at(fps@, samples@)),
        keep < fps@.len(),
    ensures
        out@.len() == samples@.len(),
        forall|k: int|
            0 <= k < out@.len() ==> is_champion(
                fps@,
                list@,
                priority,
                best,
                keep,
                codecs_at(fps@, samples@)[k],
                #[trigger] out@[k],
            ),
{
    let contends = holds(list, keep);
    let mut out: Vec<usize> = Vec::new();
    for k in 0..samples.len()
        invariant
            is_ranking(best, fps@.len()),
            in_range(list@, fps@.len()),
            in_range(samples@, fps@.len()),
            are_codecs(fps@, list@, codecs_at(fps@, samples@)),
            keep < fps@.len(),
            contends <==> list@.contains(keep),
            out@.len() == k,
            forall|m: int|
                0 <= m < out@.len() ==> is_champion(
                    fps@,
                    list@,
                    priority,
                    best,
                    keep,
                    codecs_at(fps@, samples@)[m],
                    #[trigger] out@[m],
                ),
    {
        let x = samples[k];
        assert(codecs_at(fps@, samples@)[k as int] == codec_of(fps@, x));
        if contends && same(&fps[keep].codec, &fps[x].codec) {
            out.push(keep);
        } else {
            let field = sharing_codec(list, fps, x);
            proof {
                lemma_filter(list@, |y: usize| codec_of(fps@, y) == codec_of(fps@, x));
                assert(has_codec(fps@, list@, codecs_at(fps@, samples@)[k as int]));
                let i = choose|i: int|
                    0 <= i < list@.len() && codec_of(fps@, #[trigger] list@[i]) == codec_of(
                        fps@,
                        x,
                    );
                assert(list@.contains(list@[i]));
                assert(field@.contains(list@[i]));
                assert forall|j: int| 0 <= j < field@.len() implies #[trigger] field@[j]
                    < fps@.len() by {
                    assert(field@.contains(field@[j]));
                    let m = choose|m: int| 0 <= m < list@.len() && list@[m] == field@[j];
                    assert(list@[m] < fps@.len());
                }
                assert(in_range(field@, fps@.len()));
                assert(best.requires((&field, priority)));
            }
            let champion = best(&field, priority);
            assert(best.ensures((&field, priority), champion));
            assert(chosen(
                best,
                with_codec(fps@, list@, codec_of(fps@, x)),
                priority,
                champion,
            ));
            out.push(champion);
        }
    }
    out
}

/// The place of a file in a list that holds it.
fn place(list: &Vec<usize>, x: usize) -> (at: usize)
    requires
        list@.contains(x),
    ensures
        at < list@.len(),
        list@[at as int] == x,
{
    let n = list.len();
    let mut at: usize = 0;
    while list[at] != x
        invariant
            n == list@.len(),
            list@.contains(x),
            at < list@.len(),
            forall|j: int| 0 <= j < at ==> #[trigger] list@[j] != x,
        decreases list@.len() - at,
    {
        proof {
            let j = choose|j: int| 0 <= j < list@.len() && list@[j] == x;
            assert(j > at);
        }
        at = at + 1;
    }
    at
}

/// Settle one group: which copy is the best, which are held for review, and which are
/// marked for deletion.
///
/// `best` ranks files by a metric, and `leads` says whether a member of a group is
/// among its best by one.
pub fn judge_group<B, L>(
    group: &Vec<usize>,
    fps: &[VideoFingerprint],
    priority: Priority,
    best: &B,
    leads: &L,
) -> (fates: GroupFates) where
    B: Fn(&Vec<usize>, Priority) -> usize,
    L: Fn(&Vec<usize>, usize, Priority) -> bool,

    requires
        group@.len() > 0,
        in_range(group@, fps@.len()),
        is_ranking(best, fps@.len()),
        is_tiering(leads, fps@.len()),
    ensures
        exists|g: Grounds|
            #[trigger] is_grounds(fps@, group@, priority, best, leads, g) && are_group_fates(
                fps@,
                group@,
                priority,
                g,
                fates,
            ),
{
    let keep = best(group, priority);
    assert(best.ensures((group, priority), keep));
    let at = place(group, keep);
    assert(keep < fps@.len());
    let long = tiers(group, fps.len(), Priority::Length, leads);
    let sharp = tiers(group, fps.len(), Priority::Resolution, leads);
    let (known, unknown) = split_measured(group, fps);
    let mut review: Vec<usize> = unknown;
    let ghost unmeasured = review@;
    let mut measured: usize = keep;
    if review.len() > 0 && known.len() > 0 {
        if !fps[keep].duration.is_positive() {
            proof {
                lemma_filter(group@, |x: usize| is_measured(&fps@[x as int]));
                assert forall|j: int| 0 <= j < known@.len() implies #[trigger] known@[j]
                    < fps@.len() by {
                    assert(known@.contains(known@[j]));
                    let m = choose|m: int| 0 <= m < group@.len() && group@[m] == known@[j];
                    assert(group@[m] < fps@.len());
                }
                assert(in_range(known@, fps@.len()));
                assert(best.requires((&known, priority)));
            }
            measured = best(&known, priority);
            assert(best.ensures((&known, priority), measured));
            assert(chosen(best, measured_in(fps@, group@), priority, measured));
        }
        review.push(measured);
    }
    let ghost after_measured = review@;
    let mut longest: usize = keep;
    let mut sharpest: usize = keep;
    let short: bool = priority != Priority::Length && !long[at];
    if short {
        longest = best(group, Priority::Length);
        assert(best.ensures((group, Priority::Length), longest));
    }
    let blurred: bool = priority != Priority::Resolution && !sharp[at];
    if longest != keep {
        review.push(longest);
    } else if blurred {
        sharpest = best(group, Priority::Resolution);
        assert(best.ensures((group, Priority::Resolution), sharpest));
        if sharpest != keep {
            review.push(sharpest);
        }
    }
    let ghost after_metrics = review@;
    let list = contending(group, &long, &sharp);
    proof {
        assert forall|j: int| 0 <= j < list@.len() implies #[trigger] list@[j] < fps@.len() by {
            assert(group@.contains(list@[j]));
            let m = choose|m: int| 0 <= m < group@.len() && group@[m] == list@[j];
            assert(group@[m] < fps@.len());
        }
        assert(in_range(list@, fps@.len()));
    }
    let samples = codec_samples(&list, fps);
    let mut elected: Vec<usize> = Vec::new();
    if samples.len() > 1 {
        elected = champions(&list, &samples, fps, priority, keep, best);
    }
    let ghost g = Grounds {
        keep,
        at: at as int,
        long: long@,
        sharp: sharp@,
        longest,
        sharpest,
        measured,
        codecs: codecs_at(fps@, samples@),
        champions: elected@,
    };
    for k in 0..elected.len()
        invariant
            after_metrics.len() <= review@.len(),
            forall|x: usize| #[trigger]
                review@.contains(x) <==> after_metrics.contains(x) || elected@.take(
                    k as int,
                ).contains(x),
    {
        let ghost before = review@;
        review.push(elected[k]);
        proof {
            lemma_push_contains(before, elected@[k as int]);
            assert(elected@.take(k + 1) =~= elected@.take(k as int).push(elected@[k as int]));
            lemma_push_contains(elected@.take(k as int), elected@[k as int]);
        }
    }
    proof {
        assert(elected@.take(elected@.len() as int) =~= elected@);
        lemma_push_contains(unmeasured, measured);
        lemma_push_contains(after_measured, longest);
        lemma_push_contains(after_measured, sharpest);
        assert(is_grounds(fps@, group@, priority, best, leads, g));
        assert forall|x: usize| #[trigger] review@.contains(x) <==> is_held(
            fps@,
            group@,
            priority,
            g,
            x,
        ) by {}
    }
    let mut doomed: Vec<usize> = Vec::new();
    for i in 0..group.len()
        invariant
            forall|x: usize| #[trigger]
                doomed@.contains(x) <==> group@.take(i as int).contains(x) && x != keep
                    && !review@.contains(x),
    {
        let x = group[i];
        let ghost before = doomed@;
        proof {
            assert(group@.take(i + 1) =~= group@.take(i as int).push(x));
            lemma_push_contains(group@.take(i as int), x);
            lemma_push_contains(before, x);
        }
        if x != keep && !holds(&review, x) {
            doomed.push(x);
        }
    }
    assert(group@.take(group@.len() as int) =~= group@);
    let fates = GroupFates { keep, review, doomed };
    assert(are_group_fates(fps@, group@, priority, g, fates));
    fates
}

/// What is to become of every file, over all groups.
pub struct Fates {
    /// Which files are held for review.
    pub review: Vec<bool>,
    /// Which files some group marked for deletion.
    pub doomed: Vec<bool>,
    /// Which files are to be deleted, in order, once each.
    pub delete: Vec<usize>,
}

/// Whether a ranking of every group led to these grounds.
pub open spec fn are_grounds<
    B: Fn(&Vec<usize>, Priority) -> usize,
    L: Fn(&Vec<usize>, usize, Priority) -> bool,
>(
    fps: Seq<VideoFingerprint>,
    groups: Seq<Vec<usize>>,
    priority: Priority,
    best: &B,
    leads: &L,
    gs: Seq<Grounds>,
) -> bool {
    gs.len() == groups.len() && forall|i: int|
        0 <= i < groups.len() ==> is_grounds(
            fps,
            groups[i]@,
            priority,
            best,
            leads,
            #[trigger] gs[i],
        )
}

/// Whether some of the first `n` groups holds this file for review.
pub open spec fn held_by(
    fps: Seq<VideoFingerprint>,
    groups: Seq<Vec<usize>>,
    priority: Priority,
    gs: Seq<Grounds>,
    n: int,
    x: usize,
) -> bool {
    exists|i: int| 0 <= i < n && is_held(fps, groups[i]@, priority, #[trigger] gs[i], x)
}

/// Whether some of the first `n` groups marks this file for deletion.
pub open spec fn doomed_by(
    fps: Seq<VideoFingerprint>,
    groups: Seq<Vec<usize>>,
    priority: Priority,
    gs: Seq<Grounds>,
    n: int,
    x: usize,
) -> bool {
    exists|i: int| 0 <= i < n && is_doomed(fps, groups[i]@, priority, #[trigger] gs[i], x)
}

/// Whether a file is to be deleted: some group marks it, and none holds it back.
pub open spec fn is_deleted(
    fps: Seq<VideoFingerprint>,
    groups: Seq<Vec<usize>>,
    priority: Priority,
    gs: Seq<Grounds>,
    x: usize,
) -> bool {
    doomed_by(fps, groups, priority, gs, groups.len() as int, x) && !held_by(
        fps,
        groups,
        priority,
        gs,
        groups.len() as int,
        x,
    )
}

/// Whether these are the fates that the groups' rankings lead to.
pub open spec fn are_fates(
    fps: Seq<VideoFingerprint>,
    groups: Seq<Vec<usize>>,
    priority: Priority,
    gs: Seq<Grounds>,
    f: Fates,
) -> bool {
    &&& f.review@.len() == fps.len()
    &&& f.doomed@.len() == fps.len()
    &&& forall|x: usize|
        x < fps.len() ==> (#[trigger] f.review@[x as int] <==> held_by(
            fps,
            groups,
            priority,
            gs,
            groups.len() as int,
            x,
        ))
    &&& forall|x: usize|
        x < fps.len() ==> (#[trigger] f.doomed@[x as int] <==> doomed_by(
            fps,
            groups,
            priority,
            gs,
            groups.len() as int,
            x,
        ))
    &&& forall|x: usize| #[trigger]
        f.delete@.contains(x) <==> is_deleted(fps, groups, priority, gs, x)
    &&& forall|i: int, j: int|
        0 <= i < j < f.delete@.len() ==> #[trigger] f.delete@[i] < #[trigger] f.delete@[j]
}

/// Whether these are the fates that the rankings of some groups lead to.
pub open spec fn is_resolved<
    B: Fn(&Vec<usize>, Priority) -> usize,
    L: Fn(&Vec<usize>, usize, Priority) -> bool,
>(
    fps: Seq<VideoFingerprint>,
    groups: Seq<Vec<usize>>,
    priority: Priority,
    best: &B,
    leads: &L,
    f: Fates,
) -> bool {
    exists|gs: Seq<Grounds>|
        #[trigger] are_grounds(fps, groups, priority, best, leads, gs) && are_fates(
            fps,
            groups,
            priority,
            gs,
            f,
        )
}

/// A file that a group's ranking names is one of the files.
proof fn lemma_held_in_range<
    B: Fn(&Vec<usize>, Priority) -> usize,
    L: Fn(&Vec<usize>, usize, Priority) -> bool,
>(
    fps: Seq<VideoFingerprint>,
    group: Seq<usize>,
    priority: Priority,
    best: &B,
    leads: &L,
    g: Grounds,
    x: usize,
)
    requires
        in_range(group, fps.len()),
        is_ranking(best, fps.len()),
        is_grounds(fps, group, priority, best, leads, g),
        is_held(fps, group, priority, g, x),
    ensures
        group.contains(x),
        x < fps.len(),
{
    if group.contains(x) {
    } else if has_unmeasured(fps, group) && measured_in(fps, group).len() > 0 && x == g.measured {
        lemma_filter(group, |y: usize| is_measured(&fps[y as int]));
        if !is_measured(&fps[g.keep as int]) {
            let v = choose|v: Vec<usize>|
                v@ == measured_in(fps, group) && #[trigger] best.ensures((&v, priority), x);
            assert(v@.contains(x));
        } else {
            assert(group.contains(group[g.at]));
        }
    } else if shows_longest(g, priority) && x == g.longest {
        let v = choose|v: Vec<usize>|
            v@ == group && #[trigger] best.ensures((&v, Priority::Length), x);
        assert(v@.contains(x));
    } else if shows_sharpest(g, priority) && x == g.sharpest {
        let v = choose|v: Vec<usize>|
            v@ == group && #[trigger] best.ensures((&v, Priority::Resolution), x);
        assert(v@.contains(x));
    } else {
        let k = choose|k: int| 0 <= k < g.champions.len() && g.champions[k] == x;
        let list = contenders(group, g);
        lemma_contenders(group, g.long, g.sharp, group.len() as int);
        assert(is_champion(fps, list, priority, best, g.keep, g.codecs[k], g.champions[k]));
        if list.contains(g.keep) && codec_of(fps, g.keep) == g.codecs[k] {
            assert(group.contains(group[g.at]));
        } else {
            lemma_filter(list, |y: usize| codec_of(fps, y) == g.codecs[k]);
            let v = choose|v: Vec<usize>|
                v@ == with_codec(fps, list, g.codecs[k]) && #[trigger] best.ensures(
                    (&v, priority),
                    x,
                );
            assert(v@.contains(x));
            assert(list.contains(x));
        }
    }
    let m = choose|m: int| 0 <= m < group.len() && group[m] == x;
    assert(group[m] < fps.len());
}

/// Contenders are members.
proof fn lemma_contenders(group: Seq<usize>, long: Seq<bool>, sharp: Seq<bool>, n: int)
    requires
        n <= group.len(),
    ensures
        forall|x: usize| #[trigger]
            contenders_upto(group, long, sharp, n).contains(x) ==> group.contains(x),
    decreases n,
{
    if n > 0 {
        lemma_contenders(group, long, sharp, n - 1);
        lemma_push_contains(contenders_upto(group, long, sharp, n - 1), group[n - 1]);
        assert(group.contains(group[n - 1]));
    }
}

/// Set the marks of some files.
fn mark(marks: &mut Vec<bool>, list: &Vec<usize>)
    requires
        in_range(list@, old(marks)@.len()),
    ensures
        final(marks)@.len() == old(marks)@.len(),
        forall|x: usize|
            x < old(marks)@.len() ==> (#[trigger] final(marks)@[x as int] <==> old(
                marks,
            )@[x as int] || list@.contains(x)),
{
    let ghost before = marks@;
    for i in 0..list.len()
        invariant
            in_range(list@, marks@.len()),
            marks@.len() == before.len(),
            forall|x: usize|
                x < before.len() ==> (#[trigger] marks@[x as int] <==> before[x as int]
                    || list@.take(i as int).contains(x)),
    {
        let y = list[i];
        proof {
            assert(list@.take(i + 1) =~= list@.take(i as int).push(y));
            lemma_push_contains(list@.take(i as int), y);
        }
        marks.set(y, true);
    }
    assert(list@.take(list@.len() as int) =~= list@);
}

/// Settle every group, and what becomes of every file over all of them.
///
/// Groups overlap, so a file can stand in several. One that is held for review
/// anywhere is never deleted; one that any group marks otherwise is, even where it is
/// the best copy of another.
pub fn resolve<B, L>(
    groups: &Vec<Vec<usize>>,
    fps: &[VideoFingerprint],
    priority: Priority,
    best: &B,
    leads: &L,
) -> (fates: Fates) where
    B: Fn(&Vec<usize>, Priority) -> usize,
    L: Fn(&Vec<usize>, usize, Priority) -> bool,

    requires
        forall|i: int|
            0 <= i < groups@.len() ==> (#[trigger] groups@[i])@.len() > 0 && in_range(
                groups@[i]@,
                fps@.len(),
            ),
        is_ranking(best, fps@.len()),
        is_tiering(leads, fps@.len()),
    ensures
        is_resolved(fps@, groups@, priority, best, leads, fates),
{
    let n = fps.len();
    let mut review: Vec<bool> = Vec::new();
    let mut doomed: Vec<bool> = Vec::new();
    for i in 0..n
        invariant
            review@.len() == i,
            doomed@.len() == i,
            forall|x: usize| x < i ==> !#[trigger] review@[x as int],
            forall|x: usize| x < i ==> !#[trigger] doomed@[x as int],
    {
        review.push(false);
        doomed.push(false);
    }
    let ghost mut gs: Seq<Grounds> = Seq::empty();
    for i in 0..groups.len()
        invariant
            n == fps@.len(),
            forall|i: int|
                0 <= i < groups@.len() ==> (#[trigger] groups@[i])@.len() > 0 && in_range(
                    groups@[i]@,
                    fps@.len(),
                ),
            is_ranking(best, fps@.len()),
            is_tiering(leads, fps@.len()),
            gs.len() == i,
            forall|j: int|
                0 <= j < i ==> is_grounds(
                    fps@,
                    groups@[j]@,
                    priority,
                    best,
                    leads,
                    #[trigger] gs[j],
                ),
            review@.len() == n,
            doomed@.len() == n,
            forall|x: usize|
                x < n ==> (#[trigger] review@[x as int] <==> held_by(
                    fps@,
                    groups@,
                    priority,
                    gs,
                    i as int,
                    x,
                )),
            forall|x: usize|
                x < n ==> (#[trigger] doomed@[x as int] <==> doomed_by(
                    fps@,
                    groups@,
                    priority,
                    gs,
                    i as int,
                    x,
                )),
    {
        let group = &groups[i];
        assert(groups@[i as int]@.len() > 0);
        let f = judge_group(group, fps, priority, best, leads);
        let ghost g = choose|g: Grounds|
            #[trigger] is_grounds(fps@, group@, priority, best, leads, g) && are_group_fates(
                fps@,
                group@,
                priority,
                g,
                f,
            );
        let ghost before = gs;
        proof {
            gs = gs.push(g);
            assert forall|k: int| 0 <= k < f.review@.len() implies #[trigger] f.review@[k] < n by {
                assert(f.review@.contains(f.review@[k]));
                lemma_held_in_range(fps@, group@, priority, best, leads, g, f.review@[k]);
            }
            assert forall|k: int| 0 <= k < f.doomed@.len() implies #[trigger] f.doomed@[k] < n by {
                assert(f.doomed@.contains(f.doomed@[k]));
                let m = choose|m: int| 0 <= m < group@.len() && group@[m] == f.doomed@[k];
                assert(group@[m] < n);
            }
        }
        let ghost old_review = review@;
        let ghost old_doomed = doomed@;
        mark(&mut review, &f.review);
        mark(&mut doomed, &f.doomed);
        proof {
            assert forall|j: int| 0 <= j < i + 1 implies is_grounds(
                fps@,
                groups@[j]@,
                priority,
                best,
                leads,
                #[trigger] gs[j],
            ) by {
                if j < i {
                    assert(gs[j] == before[j]);
                }
            }
            assert forall|x: usize| x < n implies (#[trigger] review@[x as int] <==> held_by(
                fps@,
                groups@,
                priority,
                gs,
                i + 1,
                x,
            )) by {
                assert(old_review[x as int] <==> held_by(fps@, groups@, priority, before, i as int, x));
                lemma_one_more_group(fps@, groups@, priority, before, g, i as int, x);
                assert(f.review@.contains(x) <==> is_held(fps@, group@, priority, g, x));
            }
            assert forall|x: usize| x < n implies (#[trigger] doomed@[x as int] <==> doomed_by(
                fps@,
                groups@,
                priority,
                gs,
                i + 1,
                x,
            )) by {
                assert(old_doomed[x as int] <==> doomed_by(
                    fps@,
                    groups@,
                    priority,
                    before,
                    i as int,
                    x,
                ));
                lemma_one_more_group(fps@, groups@, priority, before, g, i as int, x);
                assert(f.doomed@.contains(x) <==> is_doomed(fps@, group@, priority, g, x));
            }
        }
    }
    let mut delete: Vec<usize> = Vec::new();
    for x in 0..n
        invariant
            review@.len() == n,
            doomed@.len() == n,
            forall|y: usize| #[trigger]
                delete@.contains(y) <==> y < x && doomed@[y as int] && !review@[y as int],
            forall|i: int, j: int|
                0 <= i < j < delete@.len() ==> #[trigger] delete@[i] < #[trigger] delete@[j],
            forall|i: int| 0 <= i < delete@.len() ==> #[trigger] delete@[i] < x,
    {
        let ghost before = delete@;
        proof {
            lemma_push_contains(before, x);
        }
        if doomed[x] && !review[x] {
            delete.push(x);
        }
    }
    let fates = Fates { review, doomed, delete };
    proof {
        assert forall|x: usize| #[trigger] fates.delete@.contains(x) <==> is_deleted(
            fps@,
            groups@,
            priority,
            gs,
            x,
        ) by {
            if doomed_by(fps@, groups@, priority, gs, groups@.len() as int, x) {
                let i = choose|i: int|
                    0 <= i < groups@.len() && is_doomed(
                        fps@,
                        groups@[i]@,
                        priority,
                        #[trigger] gs[i],
                        x,
                    );
                let group = groups@[i]@;
                let m = choose|m: int| 0 <= m < group.len() && group[m] == x;
                assert(groups@[i]@.len() > 0);
                assert(group[m] < n);
            }
        }
        assert(are_grounds(fps@, groups@, priority, best, leads, gs));
    }
    fates
}

proof fn lemma_one_more_group(
    fps: Seq<VideoFingerprint>,
    groups: Seq<Vec<usize>>,
    priority: Priority,
    gs: Seq<Grounds>,
    g: Grounds,
    n: int,
    x: usize,
)
    requires
        gs.len() == n,
        0 <= n < groups.len(),
    ensures
        held_by(fps, groups, priority, gs.push(g), n + 1, x) <==> held_by(
            fps,
            groups,
            priority,
            gs,
            n,
            x,
        ) || is_held(fps, groups[n]@, priority, g, x),
        doomed_by(fps, groups, priority, gs.push(g), n + 1, x) <==> doomed_by(
            fps,
            groups,
            priority,
            gs,
            n,
            x,
        ) || is_doomed(fps, groups[n]@, priority, g, x),
{
    let more = gs.push(g);
    assert(more[n] == g);
    if held_by(fps, groups, priority, gs, n, x) {
        let i = choose|i: int| 0 <= i < n && is_held(fps, groups[i]@, priority, #[trigger] gs[i], x);
        assert(more[i] == gs[i]);
    }
    if held_by(fps, groups, priority, more, n + 1, x) {
        let i = choose|i: int|
            0 <= i < n + 1 && is_held(fps, groups[i]@, priority, #[trigger] more[i], x);
        if i < n {
            assert(more[i] == gs[i]);
        }
    }
    if doomed_by(fps, groups, priority, gs, n, x) {
        let i = choose|i: int|
            0 <= i < n && is_doomed(fps, groups[i]@, priority, #[trigger] gs[i], x);
        assert(more[i] == gs[i]);
    }
    if doomed_by(fps, groups, priority, more, n + 1, x) {
        let i = choose|i: int|
            0 <= i < n + 1 && is_doomed(fps, groups[i]@, priority, #[trigger] more[i], x);
        if i < n {
            assert(more[i] == gs[i]);
        }
    }
}

/// A file held for review anywhere is never deleted, whatever other groups say.
pub proof fn lemma_review_outranks_deletion(
    fps: Seq<VideoFingerprint>,
    groups: Seq<Vec<usize>>,
    priority: Priority,
    gs: Seq<Grounds>,
    i: int,
    x: usize,
)
    requires
        gs.len() == groups.len(),
        0 <= i < groups.len(),
        is_held(fps, groups[i]@, priority, gs[i], x),
    ensures
        !is_deleted(fps, groups, priority, gs, x),
{
}

/// A file that any group marks is deleted, even where it is the best copy of another
/// group, unless some group holds it back.
pub proof fn lemma_a_loss_anywhere_is_a_loss(
    fps: Seq<VideoFingerprint>,
    groups: Seq<Vec<usize>>,
    priority: Priority,
    gs: Seq<Grounds>,
    i: int,
    x: usize,
)
    requires
        gs.len() == groups.len(),
        0 <= i < groups.len(),
        is_doomed(fps, groups[i]@, priority, gs[i], x),
    ensures
        is_deleted(fps, groups, priority, gs, x) <==> !held_by(
            fps,
            groups,
            priority,
            gs,
            groups.len() as int,
            x,
        ),
{
}

/// A group never marks the copy its own ranking chose, so every group leaves at least
/// one of its members to the others.
pub proof fn lemma_a_group_never_dooms_its_pick<
    B: Fn(&Vec<usize>, Priority) -> usize,
    L: Fn(&Vec<usize>, usize, Priority) -> bool,
>(
    fps: Seq<VideoFingerprint>,
    group: Seq<usize>,
    priority: Priority,
    best: &B,
    leads: &L,
    g: Grounds,
)
    requires
        is_grounds(fps, group, priority, best, leads, g),
    ensures
        group.contains(g.keep),
        !is_doomed(fps, group, priority, g, g.keep),
{
    assert(group.contains(group[g.at]));
}

/// A file whose runtime is unknown is never deleted.
pub proof fn lemma_an_unmeasured_file_is_never_deleted(
    fps: Seq<VideoFingerprint>,
    groups: Seq<Vec<usize>>,
    priority: Priority,
    gs: Seq<Grounds>,
    x: usize,
)
    requires
        gs.len() == groups.len(),
        !is_measured(&fps[x as int]),
    ensures
        !is_deleted(fps, groups, priority, gs, x),
{
}

/// Every deleted file lost to the best copy of a group it is in, and that copy is a
/// different file of the same group.
pub proof fn lemma_a_deletion_rests_on_a_ranking<
    B: Fn(&Vec<usize>, Priority) -> usize,
    L: Fn(&Vec<usize>, usize, Priority) -> bool,
>(
    fps: Seq<VideoFingerprint>,
    groups: Seq<Vec<usize>>,
    priority: Priority,
    best: &B,
    leads: &L,
    gs: Seq<Grounds>,
    x: usize,
) -> (i: int)
    requires
        are_grounds(fps, groups, priority, best, leads, gs),
        is_deleted(fps, groups, priority, gs, x),
    ensures
        0 <= i < groups.len(),
        groups[i]@.contains(x),
        groups[i]@.contains(gs[i].keep),
        gs[i].keep != x,
        chosen(best, groups[i]@, priority, gs[i].keep),
{
    let i = choose|i: int|
        0 <= i < groups.len() && is_doomed(fps, groups[i]@, priority, #[trigger] gs[i], x);
    assert(is_grounds(fps, groups[i]@, priority, best, leads, gs[i]));
    assert(groups[i]@.contains(groups[i]@[gs[i].at]));
    i
}

/// In a standoff every codec of the contenders keeps a copy: one that is never
/// deleted, whatever other groups say.
pub proof fn lemma_a_standoff_keeps_every_codec<
    B: Fn(&Vec<usize>, Priority) -> usize,
    L: Fn(&Vec<usize>, usize, Priority) -> bool,
>(
    fps: Seq<VideoFingerprint>,
    groups: Seq<Vec<usize>>,
    priority: Priority,
    best: &B,
    leads: &L,
    gs: Seq<Grounds>,
    i: int,
    c: usize,
) -> (survivor: usize)
    requires
        are_grounds(fps, groups, priority, best, leads, gs),
        is_ranking(best, fps.len()),
        0 <= i < groups.len(),
        is_standoff(gs[i]),
        contenders(groups[i]@, gs[i]).contains(c),
    ensures
        groups[i]@.contains(survivor),
        codec_of(fps, survivor) == codec_of(fps, c),
        is_held(fps, groups[i]@, priority, gs[i], survivor),
        !is_deleted(fps, groups, priority, gs, survivor),
{
    let g = gs[i];
    let group = groups[i]@;
    let list = contenders(group, g);
    assert(is_grounds(fps, group, priority, best, leads, gs[i]));
    let m = choose|m: int| 0 <= m < list.len() && list[m] == c;
    assert(g.codecs.contains(codec_of(fps, list[m])));
    let k = choose|k: int| 0 <= k < g.codecs.len() && g.codecs[k] == codec_of(fps, c);
    let survivor = g.champions[k];
    assert(g.champions.contains(survivor));
    assert(is_champion(fps, list, priority, best, g.keep, g.codecs[k], g.champions[k]));
    lemma_contenders(group, g.long, g.sharp, group.len() as int);
    if !(list.contains(g.keep) && codec_of(fps, g.keep) == g.codecs[k]) {
        lemma_filter(list, |y: usize| codec_of(fps, y) == g.codecs[k]);
        let v = choose|v: Vec<usize>|
            v@ == with_codec(fps, list, g.codecs[k]) && #[trigger] best.ensures(
                (&v, priority),
                survivor,
            );
        assert(v@.contains(survivor));
    }
    survivor
}

/// A standoff protects no more than one copy of each codec: a contender that is
/// neither the pick nor its codec's champion is marked, unless something else holds it.
pub proof fn lemma_a_standoff_protects_no_more(
    fps: Seq<VideoFingerprint>,
    group: Seq<usize>,
    priority: Priority,
    g: Grounds,
    x: usize,
)
    requires
        group.contains(x),
        x != g.keep,
        !g.champions.contains(x),
        !has_unmeasured(fps, group),
        !shows_longest(g, priority),
        !shows_sharpest(g, priority),
    ensures
        is_doomed(fps, group, priority, g, x),
{
    if !is_measured(&fps[x as int]) {
        let m = choose|m: int| 0 <= m < group.len() && group[m] == x;
        assert(!is_measured(&fps[group[m] as int]));
    }
}

/// Where every runtime is known, the contenders share a codec, and the best copy is
/// second to none, a group marks every other member: exactly one copy is kept.
pub proof fn lemma_an_ordinary_group_keeps_one(
    fps: Seq<VideoFingerprint>,
    group: Seq<usize>,
    priority: Priority,
    g: Grounds,
    x: usize,
)
    requires
        !has_unmeasured(fps, group),
        !is_standoff(g),
        !shows_longest(g, priority),
        !shows_sharpest(g, priority),
        group.contains(x),
    ensures
        is_doomed(fps, group, priority, g, x) <==> x != g.keep,
{
    if !is_measured(&fps[x as int]) {
        let m = choose|m: int| 0 <= m < group.len() && group[m] == x;
        assert(!is_measured(&fps[group[m] as int]));
    }
}

/// Whether a ranking names one file alone the best of some.
pub open spec fn is_single_ranking<B: Fn(&Vec<usize>, Priority) -> usize>(best: &B) -> bool {
    forall|members: Seq<usize>, by: Priority, a: usize, b: usize| #[trigger]
        chosen(best, members, by, a) && #[trigger] chosen(best, members, by, b) ==> a == b
}

/// Whether a tiering says one thing alone of a member.
pub open spec fn is_single_tiering<L: Fn(&Vec<usize>, usize, Priority) -> bool>(
    leads: &L,
) -> bool {
    forall|members: Seq<usize>, x: usize, by: Priority, a: bool, b: bool| #[trigger]
        placed(leads, members, x, by, a) && #[trigger] placed(leads, members, x, by, b) ==> a == b
}

/// One tiering places the members of a group in one way.
proof fn lemma_one_tiering<L: Fn(&Vec<usize>, usize, Priority) -> bool>(
    leads: &L,
    group: Seq<usize>,
    by: Priority,
    a: Seq<bool>,
    b: Seq<bool>,
)
    requires
        is_single_tiering(leads),
        are_tiers(leads, group, by, a),
        are_tiers(leads, group, by, b),
    ensures
        a == b,
        forall|i: int, j: int|
            0 <= i < group.len() && 0 <= j < group.len() && group[i] == group[j]
                ==> #[trigger] a[i] == #[trigger] b[j],
{
    assert forall|i: int, j: int|
        0 <= i < group.len() && 0 <= j < group.len() && group[i] == group[j] implies #[trigger] a[i]
        == #[trigger] b[j] by {
        assert(placed(leads, group, group[i], by, a[i]));
        assert(placed(leads, group, group[j], by, b[j]));
    }
    assert(a =~= b);
}

/// Lists of the codecs of the same files hold the same codecs.
proof fn lemma_one_set_of_codecs(
    fps: Seq<VideoFingerprint>,
    list: Seq<usize>,
    a: Seq<Seq<char>>,
    b: Seq<Seq<char>>,
)
    requires
        are_codecs(fps, list, a),
        are_codecs(fps, list, b),
    ensures
        a.len() == b.len(),
        forall|c: Seq<char>| #[trigger] a.contains(c) <==> b.contains(c),
{
    assert forall|c: Seq<char>| #[trigger] a.contains(c) <==> b.contains(c) by {
        if a.contains(c) {
            let k = choose|k: int| 0 <= k < a.len() && a[k] == c;
            assert(has_codec(fps, list, a[k]));
        }
        if b.contains(c) {
            let k = choose|k: int| 0 <= k < b.len() && b[k] == c;
            assert(has_codec(fps, list, b[k]));
        }
    }
    a.unique_seq_to_set();
    b.unique_seq_to_set();
    assert(a.to_set() =~= b.to_set()) by {
        assert forall|c: Seq<char>| a.to_set().contains(c) <==> b.to_set().contains(c) by {
            assert(a.contains(c) <==> b.contains(c));
        }
    }
}

/// The champions of one set of grounds are those of the other.
proof fn lemma_same_champions<B: Fn(&Vec<usize>, Priority) -> usize>(
    fps: Seq<VideoFingerprint>,
    group: Seq<usize>,
    priority: Priority,
    best: &B,
    a: Grounds,
    b: Grounds,
    x: usize,
)
    requires
        is_single_ranking(best),
        are_champions(fps, group, priority, best, a),
        are_champions(fps, group, priority, best, b),
        contenders(group, a) == contenders(group, b),
        a.keep == b.keep,
        forall|c: Seq<char>| #[trigger] a.codecs.contains(c) <==> b.codecs.contains(c),
        a.champions.contains(x),
    ensures
        b.champions.contains(x),
{
    let list = contenders(group, a);
    let k = choose|k: int| 0 <= k < a.champions.len() && a.champions[k] == x;
    let codec = a.codecs[k];
    assert(is_champion(fps, list, priority, best, a.keep, codec, a.champions[k]));
    assert(a.codecs.contains(codec));
    let l = choose|l: int| 0 <= l < b.codecs.len() && b.codecs[l] == codec;
    assert(is_champion(fps, list, priority, best, b.keep, b.codecs[l], b.champions[l]));
    assert(b.champions[l] == x);
}

/// One ranking and one tiering hold the same members of a group for review, and mark
/// the same ones.
pub proof fn lemma_one_judgement<
    B: Fn(&Vec<usize>, Priority) -> usize,
    L: Fn(&Vec<usize>, usize, Priority) -> bool,
>(
    fps: Seq<VideoFingerprint>,
    group: Seq<usize>,
    priority: Priority,
    best: &B,
    leads: &L,
    a: Grounds,
    b: Grounds,
    x: usize,
)
    requires
        is_single_ranking(best),
        is_single_tiering(leads),
        is_grounds(fps, group, priority, best, leads, a),
        is_grounds(fps, group, priority, best, leads, b),
    ensures
        is_held(fps, group, priority, a, x) <==> is_held(fps, group, priority, b, x),
        is_doomed(fps, group, priority, a, x) <==> is_doomed(fps, group, priority, b, x),
{
    assert(a.keep == b.keep);
    lemma_one_tiering(leads, group, Priority::Length, a.long, b.long);
    lemma_one_tiering(leads, group, Priority::Resolution, a.sharp, b.sharp);
    assert(a.long[a.at] == b.long[b.at]);
    assert(a.sharp[a.at] == b.sharp[b.at]);
    lemma_one_set_of_codecs(fps, contenders(group, a), a.codecs, b.codecs);
    if is_standoff(a) && a.champions.contains(x) {
        lemma_same_champions(fps, group, priority, best, a, b, x);
    }
    if is_standoff(b) && b.champions.contains(x) {
        lemma_same_champions(fps, group, priority, best, b, a, x);
    }
}

/// Where the ranking and the tiering each give one answer to a question, the same groups
/// come to the same fates however often they are resolved.
pub proof fn lemma_one_ranking_leads_to_one_end<
    B: Fn(&Vec<usize>, Priority) -> usize,
    L: Fn(&Vec<usize>, usize, Priority) -> bool,
>(
    fps: Seq<VideoFingerprint>,
    groups: Seq<Vec<usize>>,
    priority: Priority,
    best: &B,
    leads: &L,
    a: Fates,
    b: Fates,
)
    requires
        is_single_ranking(best),
        is_single_tiering(leads),
        is_resolved(fps, groups, priority, best, leads, a),
        is_resolved(fps, groups, priority, best, leads, b),
    ensures
        a.review@ == b.review@,
        a.doomed@ == b.doomed@,
        a.delete@ == b.delete@,
{
    let ga = choose|gs: Seq<Grounds>|
        #[trigger] are_grounds(fps, groups, priority, best, leads, gs) && are_fates(
            fps,
            groups,
            priority,
            gs,
            a,
        );
    let gb = choose|gs: Seq<Grounds>|
        #[trigger] are_grounds(fps, groups, priority, best, leads, gs) && are_fates(
            fps,
            groups,
            priority,
            gs,
            b,
        );
    let n = groups.len() as int;
    assert forall|x: usize|
        #![trigger held_by(fps, groups, priority, ga, n, x)]
        #![trigger doomed_by(fps, groups, priority, ga, n, x)]
        #![trigger a.delete@.contains(x)]
        {
            &&& held_by(fps, groups, priority, ga, n, x) <==> held_by(
                fps,
                groups,
                priority,
                gb,
                n,
                x,
            )
            &&& doomed_by(fps, groups, priority, ga, n, x) <==> doomed_by(
                fps,
                groups,
                priority,
                gb,
                n,
                x,
            )
            &&& a.delete@.contains(x) <==> b.delete@.contains(x)
        } by {
        assert forall|i: int| 0 <= i < n implies (is_held(fps, groups[i]@, priority, ga[i], x)
            <==> is_held(fps, groups[i]@, priority, gb[i], x)) && (is_doomed(
            fps,
            groups[i]@,
            priority,
            #[trigger] ga[i],
            x,
        ) <==> is_doomed(fps, groups[i]@, priority, #[trigger] gb[i], x)) by {
            lemma_one_judgement(fps, groups[i]@, priority, best, leads, ga[i], gb[i], x);
        }
        if held_by(fps, groups, priority, ga, n, x) {
            let i = choose|i: int|
                0 <= i < n && is_held(fps, groups[i]@, priority, #[trigger] ga[i], x);
            assert(is_held(fps, groups[i]@, priority, gb[i], x));
        }
        if held_by(fps, groups, priority, gb, n, x) {
            let i = choose|i: int|
                0 <= i < n && is_held(fps, groups[i]@, priority, #[trigger] gb[i], x);
            assert(is_held(fps, groups[i]@, priority, ga[i], x));
        }
        if doomed_by(fps, groups, priority, ga, n, x) {
            let i = choose|i: int|
                0 <= i < n && is_doomed(fps, groups[i]@, priority, #[trigger] ga[i], x);
            assert(is_doomed(fps, groups[i]@, priority, gb[i], x));
        }
        if doomed_by(fps, groups, priority, gb, n, x) {
            let i = choose|i: int|
                0 <= i < n && is_doomed(fps, groups[i]@, priority, #[trigger] gb[i], x);
            assert(is_doomed(fps, groups[i]@, priority, ga[i], x));
        }
        assert(a.delete@.contains(x) <==> is_deleted(fps, groups, priority, ga, x));
        assert(b.delete@.contains(x) <==> is_deleted(fps, groups, priority, gb, x));
    }
    assert forall|i: int| 0 <= i < a.review@.len() implies a.review@[i] == b.review@[i]
        && a.doomed@[i] == b.doomed@[i] by {
        let x = i as usize;
        assert(fps.len() <= usize::MAX) by {
            assert(a.review.len() == a.review@.len());
        }
        assert(a.review@[x as int] <==> held_by(fps, groups, priority, ga, n, x));
        assert(b.review@[x as int] <==> held_by(fps, groups, priority, gb, n, x));
        assert(a.doomed@[x as int] <==> doomed_by(fps, groups, priority, ga, n, x));
        assert(b.doomed@[x as int] <==> doomed_by(fps, groups, priority, gb, n, x));
    }
    assert(a.review@ =~= b.review@);
    assert(a.doomed@ =~= b.doomed@);
    lemma_one_ascending(a.delete@, b.delete@);
}

} // verus!
