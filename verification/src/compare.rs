//! Finding every pair of videos that share footage, and looking the figures up.

use crate::candidates::{
    candidate_pairs, is_candidate, is_candidate_list, pair_lt, share_frame, Pair,
};
use crate::corroborate::{is_schedule, Rule};
use crate::evidence::{loose_for, witness_schedule, Tolerance};
use crate::fingerprint::VideoFingerprint;
use crate::frames::{frame_distance, is_admitted, is_matched_a, is_matched_b, is_timed};
use crate::hash_index::{
    direct_cost, entries, index_cost, index_is_cheaper, is_mask_list, probe_masks, probe_radius,
    total_hashes,
};
use crate::ordering::{in_order, sorted, Precedence};
use crate::overlap::{
    covered_upto, footage_le, is_footage, is_marking_a, is_marking_b, is_measure, is_overlap,
    lemma_footage_total, lemma_footage_transitive, lemma_one_overlap, match_overlap, share_le,
    Footage, Overlap, Share, Span,
};
use crate::quantity::Seconds;
use crate::text::{lemma_text_total, lemma_text_transitive, text_le, text_standing, Standing};
use crate::witness::Witnesses;
use std::collections::HashMap;
use vstd::prelude::*;

verus! {

broadcast use vstd::std_specs::hash::group_hash_axioms;

/// Two videos that share enough content to be reported together, and by how much.
///
/// Coverage is directional: a two-minute clip cut from a twenty-two minute episode
/// covers all of the clip and a tenth of the episode.
#[derive(Clone, Copy, Debug)]
pub struct Match {
    pub a: usize,
    pub b: usize,
    /// Fraction of `a`'s runtime that is also present in `b`.
    pub coverage_a: Share,
    /// Fraction of `b`'s runtime that is also present in `a`.
    pub coverage_b: Share,
    /// Where the matched footage lies in `a`'s own runtime.
    pub span_a: Option<Span>,
    /// Where the matched footage lies in `b`'s own runtime.
    pub span_b: Option<Span>,
}

impl Match {
    /// A pair whose overlap was measured but whose position in either file was not.
    pub fn new(a: usize, b: usize, coverage_a: Share, coverage_b: Share) -> (m: Match)
        ensures
            m == (Match { a, b, coverage_a, coverage_b, span_a: None, span_b: None }),
    {
        Match { a, b, coverage_a, coverage_b, span_a: None, span_b: None }
    }

    /// The same, positioned. Milliseconds, `(start, end)` per side.
    pub fn with_spans(self, a: (u32, u32), b: (u32, u32)) -> (m: Match)
        ensures
            m == (Match {
                span_a: Some(Span { start_ms: a.0, end_ms: a.1 }),
                span_b: Some(Span { start_ms: b.0, end_ms: b.1 }),
                ..self
            }),
    {
        Match {
            a: self.a,
            b: self.b,
            coverage_a: self.coverage_a,
            coverage_b: self.coverage_b,
            span_a: Some(Span { start_ms: a.0, end_ms: a.1 }),
            span_b: Some(Span { start_ms: b.0, end_ms: b.1 }),
        }
    }
}

/// One direction of one measured pair: how much of the subject the other file
/// contains, and where in the subject that footage sits.
#[derive(Clone, Copy, Debug)]
pub struct Link {
    pub coverage: Share,
    pub span: Option<Span>,
}

/// What a list of matches says of `subject` against `other`: the last word on the
/// pair, from the subject's end.
pub open spec fn recorded(matches: Seq<Match>, subject: usize, other: usize) -> Option<Link>
    decreases matches.len(),
{
    if matches.len() == 0 {
        None
    } else {
        let m = matches.last();
        if m.b == subject && m.a == other {
            Some(Link { coverage: m.coverage_b, span: m.span_b })
        } else if m.a == subject && m.b == other {
            Some(Link { coverage: m.coverage_a, span: m.span_a })
        } else {
            recorded(matches.drop_last(), subject, other)
        }
    }
}

/// Where a directed pair is kept.
spec fn slot(subject: usize, other: usize) -> u128 {
    (subject * 0x1_0000_0000_0000_0000 + other) as u128
}

/// Match figures made lookup-friendly. Both directions of every pair are kept.
pub struct MatchIndex {
    links: HashMap<u128, Link>,
}

impl MatchIndex {
    /// What is known of `subject` against `other`.
    pub closed spec fn link(&self, subject: usize, other: usize) -> Option<Link> {
        if self.links@.contains_key(slot(subject, other)) {
            Some(self.links@[slot(subject, other)])
        } else {
            None
        }
    }

    /// Index a list of matches.
    pub fn new(matches: Vec<Match>) -> (index: MatchIndex)
        ensures
            forall|s: usize, o: usize| #[trigger]
                index.link(s, o) == recorded(matches@, s, o),
    {
        let mut index = MatchIndex { links: HashMap::new() };
        for i in 0..matches.len()
            invariant
                forall|s: usize, o: usize| #[trigger]
                    index.link(s, o) == recorded(matches@.take(i as int), s, o),
        {
            let m = matches[i];
            let ghost before = index;
            let there = key(m.a, m.b);
            let back = key(m.b, m.a);
            index.links.insert(there, Link { coverage: m.coverage_a, span: m.span_a });
            index.links.insert(back, Link { coverage: m.coverage_b, span: m.span_b });
            proof {
                assert(matches@.take(i + 1).drop_last() =~= matches@.take(i as int));
                assert forall|s: usize, o: usize| #[trigger] index.link(s, o) == recorded(
                    matches@.take(i + 1),
                    s,
                    o,
                ) by {
                    lemma_slots(s, o, m.a, m.b);
                    lemma_slots(s, o, m.b, m.a);
                    assert(before.link(s, o) == recorded(matches@.take(i as int), s, o));
                }
            }
        }
        assert(matches@.take(matches@.len() as int) =~= matches@);
        index
    }

    fn get(&self, subject: usize, other: usize) -> (link: Option<Link>)
        ensures
            link == self.link(subject, other),
    {
        match self.links.get(&key(subject, other)) {
            Some(link) => Some(*link),
            None => None,
        }
    }

    /// How much of `subject` is contained in `other`, if the two were compared.
    pub fn coverage(&self, subject: usize, other: usize) -> (share: Option<Share>)
        ensures
            share == match self.link(subject, other) {
                Some(link) => Some(link.coverage),
                None => None,
            },
    {
        match self.get(subject, other) {
            Some(link) => Some(link.coverage),
            None => None,
        }
    }

    /// Where the footage `subject` shares with `other` sits in `subject`'s own
    /// runtime, if the two were compared and anything matched.
    pub fn span(&self, subject: usize, other: usize) -> (span: Option<Span>)
        ensures
            span == match self.link(subject, other) {
                Some(link) => link.span,
                None => None,
            },
    {
        match self.get(subject, other) {
            Some(link) => link.span,
            None => None,
        }
    }

    /// How much of `subject`'s own runtime `other` was found to contain. `None` when
    /// the pair was never compared, which is not the same as sharing nothing.
    pub fn matched_seconds(
        &self,
        subject: usize,
        other: usize,
        fps: &[VideoFingerprint],
    ) -> (matched: Option<Footage>)
        requires
            subject < fps@.len(),
        ensures
            matched == match self.link(subject, other) {
                Some(link) => Some(
                    Footage { share: link.coverage, runtime: fps@[subject as int].duration },
                ),
                None => None,
            },
    {
        match self.get(subject, other) {
            Some(link) => Some(Footage { share: link.coverage, runtime: fps[subject].duration }),
            None => None,
        }
    }

    /// How much content two files have in common, reconciled to one figure. `None`
    /// when the pair was never compared, or neither runtime is known.
    pub fn shared_seconds(&self, a: usize, b: usize, fps: &[VideoFingerprint]) -> (shared: Option<
        Footage,
    >)
        requires
            a < fps@.len(),
            b < fps@.len(),
        ensures
            shared == match (self.link(a, b), self.link(b, a)) {
                (Some(x), Some(y)) => pair_footage(
                    Footage { share: x.coverage, runtime: fps@[a as int].duration },
                    Footage { share: y.coverage, runtime: fps@[b as int].duration },
                ),
                _ => None,
            },
    {
        match (self.get(a, b), self.get(b, a)) {
            (Some(x), Some(y)) => overlap_seconds(
                x.coverage,
                fps[a].duration,
                y.coverage,
                fps[b].duration,
            ),
            _ => None,
        }
    }

    /// Every measured link `subject` has within `group`, strongest first, and by path
    /// among equally strong ones.
    pub fn links_of(&self, subject: usize, group: &[usize], fps: &[VideoFingerprint]) -> (links: Vec<
        GroupLink,
    >)
        requires
            subject < fps@.len(),
            forall|i: int| 0 <= i < group@.len() ==> #[trigger] group@[i] < fps@.len(),
        ensures
            links@.to_multiset() == found_links(
                self,
                subject,
                group@,
                fps@[subject as int].duration,
            ).to_multiset(),
            in_order(links@, &ByStrength { fps }),
            forall|i: int| 0 <= i < links@.len() ==> (#[trigger] links@[i]).other < fps@.len(),
    {
        let ghost runtime = fps@[subject as int].duration;
        let mut links: Vec<GroupLink> = Vec::new();
        for i in 0..group.len()
            invariant
                subject < fps@.len(),
                runtime == fps@[subject as int].duration,
                forall|i: int| 0 <= i < group@.len() ==> #[trigger] group@[i] < fps@.len(),
                links@ == found_links(self, subject, group@.take(i as int), runtime),
                forall|i: int| 0 <= i < links@.len() ==> {
                    let l = #[trigger] links@[i];
                    l.other < fps@.len() && is_footage(l.matched_seconds)
                },
        {
            let other = group[i];
            assert(group@.take(i + 1).drop_last() =~= group@.take(i as int));
            if other != subject {
                match self.matched_seconds(subject, other, fps) {
                    Some(matched_seconds) => {
                        let _ = matched_seconds.at_least(&matched_seconds);
                        links.push(
                            GroupLink { other, matched_seconds, span: self.span(subject, other) },
                        );
                    },
                    None => {},
                }
            }
        }
        assert(group@.take(group@.len() as int) =~= group@);
        sorted(&links, &ByStrength { fps })
    }

    /// The strongest link `subject` has within `group`, where it has any.
    pub fn best_link_in_group(
        &self,
        subject: usize,
        group: &[usize],
        fps: &[VideoFingerprint],
    ) -> (best: Option<GroupLink>)
        requires
            subject < fps@.len(),
            forall|i: int| 0 <= i < group@.len() ==> #[trigger] group@[i] < fps@.len(),
        ensures
            best is None <==> found_links(
                self,
                subject,
                group@,
                fps@[subject as int].duration,
            ).len() == 0,
            best matches Some(x) ==> {
                let all = found_links(self, subject, group@, fps@[subject as int].duration);
                all.contains(x) && forall|i: int|
                    0 <= i < all.len() ==> ByStrength { fps }.le(x, #[trigger] all[i])
            },
    {
        let links = self.links_of(subject, group, fps);
        let ghost all = found_links(self, subject, group@, fps@[subject as int].duration);
        proof {
            crate::ordering::lemma_same_members(links@, all);
            links@.to_multiset_ensures();
            all.to_multiset_ensures();
        }
        if links.len() > 0 {
            let x = links[0];
            proof {
                assert(links@.contains(x));
                assert forall|i: int| 0 <= i < all.len() implies ByStrength { fps }.le(
                    x,
                    #[trigger] all[i],
                ) by {
                    assert(all.contains(all[i]));
                    assert(links@.contains(all[i]));
                    let j = choose|j: int| 0 <= j < links@.len() && links@[j] == all[i];
                    if j == 0 {
                        lemma_footage_total(x.matched_seconds, x.matched_seconds);
                        lemma_text_total(
                            fps@[x.other as int].path@,
                            fps@[x.other as int].path@,
                        );
                    } else {
                        assert(ByStrength { fps }.le(links@[0], links@[j]));
                    }
                }
            }
            Some(x)
        } else {
            None
        }
    }
}

/// The slot of a directed pair.
fn key(subject: usize, other: usize) -> (k: u128)
    ensures
        k == slot(subject, other),
{
    subject as u128 * 0x1_0000_0000_0000_0000 + other as u128
}

/// Different directed pairs are kept in different slots.
proof fn lemma_slots(s: usize, o: usize, t: usize, p: usize)
    ensures
        slot(s, o) == slot(t, p) <==> s == t && o == p,
{
}

/// The links `subject` has within a group, in the group's order.
pub open spec fn found_links(
    index: &MatchIndex,
    subject: usize,
    group: Seq<usize>,
    runtime: Seconds,
) -> Seq<GroupLink>
    decreases group.len(),
{
    if group.len() == 0 {
        Seq::empty()
    } else {
        let less = found_links(index, subject, group.drop_last(), runtime);
        let other = group.last();
        match index.link(subject, other) {
            Some(link) => if other != subject {
                less.push(
                    GroupLink {
                        other,
                        matched_seconds: Footage { share: link.coverage, runtime },
                        span: link.span,
                    },
                )
            } else {
                less
            },
            None => less,
        }
    }
}

/// One file's measured relationship with one other member of its group, stated from
/// the subject's end.
#[derive(Clone, Copy, Debug)]
pub struct GroupLink {
    /// Index into the fingerprint list of the file on the other end.
    pub other: usize,
    /// How much of the subject's own runtime `other` was found to contain.
    pub matched_seconds: Footage,
    /// Where that footage sits in the subject's runtime.
    pub span: Option<Span>,
}

/// Links by matched footage, the most first, and by path among equals.
pub struct ByStrength<'a> {
    pub fps: &'a [VideoFingerprint],
}

impl<'a> Precedence<GroupLink> for ByStrength<'a> {
    open spec fn le(&self, x: GroupLink, y: GroupLink) -> bool {
        &&& footage_le(y.matched_seconds, x.matched_seconds)
        &&& footage_le(x.matched_seconds, y.matched_seconds) ==> text_le(
            self.fps@[x.other as int].path@,
            self.fps@[y.other as int].path@,
        )
    }

    open spec fn knows(&self, x: GroupLink) -> bool {
        x.other < self.fps@.len() && is_footage(x.matched_seconds)
    }

    proof fn le_is_total(&self, x: GroupLink, y: GroupLink) {
        lemma_footage_total(x.matched_seconds, y.matched_seconds);
        lemma_text_total(self.fps@[x.other as int].path@, self.fps@[y.other as int].path@);
    }

    proof fn le_is_transitive(&self, x: GroupLink, y: GroupLink, z: GroupLink) {
        lemma_footage_transitive(z.matched_seconds, y.matched_seconds, x.matched_seconds);
        if footage_le(x.matched_seconds, z.matched_seconds) {
            lemma_footage_transitive(x.matched_seconds, z.matched_seconds, y.matched_seconds);
            lemma_footage_transitive(y.matched_seconds, x.matched_seconds, z.matched_seconds);
            lemma_text_transitive(
                self.fps@[x.other as int].path@,
                self.fps@[y.other as int].path@,
                self.fps@[z.other as int].path@,
            );
        }
    }

    fn precedes(&self, x: &GroupLink, y: &GroupLink) -> (yes: bool) {
        if !x.matched_seconds.at_least(&y.matched_seconds) {
            return false;
        }
        if !y.matched_seconds.at_least(&x.matched_seconds) {
            return true;
        }
        let p = &self.fps[x.other].path;
        let q = &self.fps[y.other].path;
        proof {
            lemma_text_total(p@, q@);
        }
        match text_standing(p.as_str(), q.as_str()) {
            Standing::Before => true,
            Standing::Same => true,
            Standing::After => false,
        }
    }
}

/// The footage one measured pair has in common: the lower of the two sides'
/// estimates. A file whose runtime is unknown makes none.
pub open spec fn pair_footage(a: Footage, b: Footage) -> Option<Footage> {
    if a.runtime.num() == 0 && b.runtime.num() == 0 {
        None
    } else if a.runtime.num() == 0 {
        Some(b)
    } else if b.runtime.num() == 0 {
        Some(a)
    } else if footage_le(a, b) {
        Some(a)
    } else {
        Some(b)
    }
}

/// The footage one measured pair has in common, as a single figure.
pub fn overlap_seconds(cov_a: Share, duration_a: Seconds, cov_b: Share, duration_b: Seconds) -> (shared:
    Option<Footage>)
    ensures
        shared == pair_footage(
            Footage { share: cov_a, runtime: duration_a },
            Footage { share: cov_b, runtime: duration_b },
        ),
{
    let a = Footage { share: cov_a, runtime: duration_a };
    let b = Footage { share: cov_b, runtime: duration_b };
    if !duration_a.is_positive() {
        if !duration_b.is_positive() {
            None
        } else {
            Some(b)
        }
    } else if !duration_b.is_positive() {
        Some(a)
    } else if b.at_least(&a) {
        Some(a)
    } else {
        Some(b)
    }
}

/// Whether some footage is at least so long.
pub open spec fn lasts(f: Footage, floor: Seconds) -> bool {
    floor.num() * crate::overlap::footage_den(f) <= crate::overlap::footage_num(f) * floor.den()
}

/// Whether a measured pair clears both gates: it shares something, one side is
/// covered enough, and where a floor in seconds is set, the shared footage is known
/// and lasts that long.
pub open spec fn clears(
    o: Overlap,
    duration_a: Seconds,
    duration_b: Seconds,
    min_match_percent: Share,
    min_duration: Seconds,
) -> bool {
    &&& o.coverage_a.part() > 0 || o.coverage_b.part() > 0
    &&& share_le(min_match_percent, o.coverage_a) || share_le(min_match_percent, o.coverage_b)
    &&& min_duration.num() > 0 ==> match pair_footage(
        Footage { share: o.coverage_a, runtime: duration_a },
        Footage { share: o.coverage_b, runtime: duration_b },
    ) {
        Some(f) => lasts(f, min_duration),
        None => false,
    }
}

/// What both files of a match have in common.
pub open spec fn overlap_in(m: Match) -> Overlap {
    Overlap {
        coverage_a: m.coverage_a,
        coverage_b: m.coverage_b,
        span_a: m.span_a,
        span_b: m.span_b,
    }
}

/// Whether a pair, measured exactly, clears both gates.
pub open spec fn pair_clears(
    fps: Seq<VideoFingerprint>,
    p: Pair,
    strict: nat,
    loose: nat,
    min_match_percent: Share,
    min_duration: Seconds,
) -> bool {
    exists|o: Overlap|
        #[trigger] is_overlap(&fps[p.0 as int], &fps[p.1 as int], strict, loose, o) && clears(
            o,
            fps[p.0 as int].duration,
            fps[p.1 as int].duration,
            min_match_percent,
            min_duration,
        )
}

/// Whether this is what a pair that clears both gates is reported as.
pub open spec fn is_match(
    fps: Seq<VideoFingerprint>,
    strict: nat,
    loose: nat,
    min_match_percent: Share,
    min_duration: Seconds,
    m: Match,
) -> bool {
    &&& m.a < fps.len()
    &&& m.b < fps.len()
    &&& is_overlap(&fps[m.a as int], &fps[m.b as int], strict, loose, overlap_in(m))
    &&& clears(
        overlap_in(m),
        fps[m.a as int].duration,
        fps[m.b as int].duration,
        min_match_percent,
        min_duration,
    )
}

/// Measure one pair exactly, and apply both gates. `None` when the pair fails either
/// of them, or when the run is asked to stop.
pub fn measure_pair<F>(
    fingerprints: &[VideoFingerprint],
    pair: Pair,
    rule: Rule,
    min_match_percent: Share,
    min_duration: Seconds,
    witnesses: &mut Witnesses,
    stop: &F,
) -> (found: Option<Match>) where F: Fn() -> bool
    requires
        stop.requires(()),
        pair.0 < fingerprints@.len(),
        pair.1 < fingerprints@.len(),
        is_timed(&fingerprints@[pair.0 as int]),
        is_timed(&fingerprints@[pair.1 as int]),
        is_schedule(rule.schedule@),
        old(witnesses).is_valid(),
    ensures
        final(witnesses).is_valid(),
        found is Some ==> stop.ensures((), false),
        found matches Some(m) ==> m.a == pair.0 && m.b == pair.1 && is_match(
            fingerprints@,
            rule.tol.strict as nat,
            rule.tol.loose as nat,
            min_match_percent,
            min_duration,
            m,
        ),
        found is None ==> stop.ensures((), true) || !pair_clears(
            fingerprints@,
            pair,
            rule.tol.strict as nat,
            rule.tol.loose as nat,
            min_match_percent,
            min_duration,
        ),
{
    if stop() {
        return None;
    }
    let fp_a = &fingerprints[pair.0];
    let fp_b = &fingerprints[pair.1];
    let o = match_overlap(fp_a, fp_b, rule, witnesses);
    proof {
        assert forall|p: Overlap| #[trigger]
            is_overlap(fp_a, fp_b, rule.tol.strict as nat, rule.tol.loose as nat, p) implies (clears(
            p,
            fp_a.duration,
            fp_b.duration,
            min_match_percent,
            min_duration,
        ) <==> clears(o, fp_a.duration, fp_b.duration, min_match_percent, min_duration)) by {
            lemma_one_overlap(
                fp_a,
                fp_b,
                rule.tol.strict as nat,
                rule.tol.loose as nat,
                o,
                p,
            );
        }
    }
    if !o.coverage_a.is_positive() && !o.coverage_b.is_positive() {
        return None;
    }
    if !o.coverage_a.at_least(&min_match_percent) && !o.coverage_b.at_least(&min_match_percent) {
        return None;
    }
    if min_duration.is_positive() {
        let cleared = match overlap_seconds(
            o.coverage_a,
            fp_a.duration,
            o.coverage_b,
            fp_b.duration,
        ) {
            Some(f) => {
                let floor = Footage { share: Share::new(1, 1), runtime: min_duration };
                assert(1 * min_duration.num() == min_duration.num());
                assert(1 * min_duration.den() == min_duration.den());
                f.at_least(&floor)
            },
            None => false,
        };
        if !cleared {
            return None;
        }
    }
    let m = Match {
        a: pair.0,
        b: pair.1,
        coverage_a: o.coverage_a,
        coverage_b: o.coverage_b,
        span_a: o.span_a,
        span_b: o.span_b,
    };
    assert(overlap_in(m) == o);
    Some(m)
}

/// The matches found, in order of their pairs.
pub open spec fn are_matches(
    fps: Seq<VideoFingerprint>,
    strict: nat,
    loose: nat,
    min_match_percent: Share,
    min_duration: Seconds,
    matches: Seq<Match>,
) -> bool {
    &&& forall|i: int|
        0 <= i < matches.len() ==> {
            let m = #[trigger] matches[i];
            m.a < m.b && is_match(fps, strict, loose, min_match_percent, min_duration, m)
        }
    &&& forall|i: int, j: int|
        0 <= i < j < matches.len() ==> pair_lt(
            ((#[trigger] matches[i]).a, matches[i].b),
            ((#[trigger] matches[j]).a, matches[j].b),
        )
}

/// Whether a pair is among the matches.
pub open spec fn is_reported(matches: Seq<Match>, p: Pair) -> bool {
    exists|i: int| 0 <= i < matches.len() && (#[trigger] matches[i]).a == p.0 && matches[i].b == p.1
}

proof fn lemma_reported_push(matches: Seq<Match>, m: Match)
    ensures
        forall|p: Pair| #[trigger]
            is_reported(matches.push(m), p) <==> is_reported(matches, p) || (m.a == p.0 && m.b
                == p.1),
{
    let more = matches.push(m);
    assert forall|p: Pair| #[trigger] is_reported(more, p) <==> is_reported(matches, p) || (m.a
        == p.0 && m.b == p.1) by {
        if is_reported(matches, p) {
            let i = choose|i: int|
                0 <= i < matches.len() && (#[trigger] matches[i]).a == p.0 && matches[i].b == p.1;
            assert(more[i] == matches[i]);
        }
        if m.a == p.0 && m.b == p.1 {
            assert(more[matches.len() as int] == m);
        }
        if is_reported(more, p) {
            let i = choose|i: int|
                0 <= i < more.len() && (#[trigger] more[i]).a == p.0 && more[i].b == p.1;
            if i < matches.len() {
                assert(matches[i] == more[i]);
            }
        }
    }
}

/// A pair that clears the gates has a frame match, no further apart than the wider
/// tolerance.
proof fn lemma_match_is_candidate(
    fps: Seq<VideoFingerprint>,
    p: Pair,
    d: nat,
    min_match_percent: Share,
    min_duration: Seconds,
)
    requires
        p.0 < p.1 < fps.len(),
        pair_clears(fps, p, d, loose_for(d), min_match_percent, min_duration),
    ensures
        is_candidate(fps, loose_for(d), p),
{
    let a = &fps[p.0 as int];
    let b = &fps[p.1 as int];
    let loose = loose_for(d);
    let o = choose|o: Overlap|
        #[trigger] is_overlap(a, b, d, loose, o) && clears(
            o,
            a.duration,
            b.duration,
            min_match_percent,
            min_duration,
        );
    let (ma, mb) = choose|ma: Seq<bool>, mb: Seq<bool>|
        #[trigger] is_marking_a(a, b, d, loose, ma) && #[trigger] is_marking_b(a, b, d, loose, mb)
            && is_measure(ma, a, o.coverage_a, o.span_a) && is_measure(
            mb,
            b,
            o.coverage_b,
            o.span_b,
        );
    let (i, j): (int, int) = if o.coverage_a.part() > 0 {
        let i = lemma_some_covered(ma, a, ma.len() as int);
        let j = choose|j: int| #[trigger] is_admitted(a, b, d, loose, i, j);
        assert(is_matched_a(a, b, d, loose, i));
        (i, j)
    } else {
        let j = lemma_some_covered(mb, b, mb.len() as int);
        let i = choose|i: int| #[trigger] is_admitted(a, b, d, loose, i, j);
        assert(is_matched_b(a, b, d, loose, j));
        (i, j)
    };
    assert(is_admitted(a, b, d, loose, i, j));
    let x = a.valid_hashes@[i];
    let y = b.valid_hashes@[j];
    crate::frames::lemma_ones_bound(x ^ y);
    assert(frame_distance(a, b, i, j) <= loose);
    assert(a.valid_hashes@.contains(x) && b.valid_hashes@.contains(y));
    assert(share_frame(a, b, loose));
}

/// Where anything is covered, some sample matched.
proof fn lemma_some_covered(matched: Seq<bool>, fp: &VideoFingerprint, n: int) -> (i: int)
    requires
        0 <= n <= matched.len(),
        covered_upto(matched, fp, n) > 0,
    ensures
        0 <= i < n,
        matched[i],
    decreases n,
{
    if matched[n - 1] {
        n - 1
    } else {
        lemma_some_covered(matched, fp, n - 1)
    }
}

/// Whether the videos and their hashes are few enough to be numbered in an index.
pub open spec fn can_be_numbered(fps: Seq<VideoFingerprint>) -> bool {
    fps.len() <= u32::MAX && total_hashes(fps) <= u32::MAX
}

/// How many hashes the videos hold between them, where they can be numbered.
fn count_hashes(fingerprints: &[VideoFingerprint]) -> (total: Option<usize>)
    ensures
        total is Some <==> can_be_numbered(fingerprints@),
        total matches Some(t) ==> t == total_hashes(fingerprints@),
{
    if fingerprints.len() as u64 > u32::MAX as u64 {
        return None;
    }
    let mut total: usize = 0;
    for v in 0..fingerprints.len()
        invariant
            fingerprints@.len() <= u32::MAX,
            total == entries(fingerprints@, v as int).len(),
            total <= u32::MAX,
    {
        proof {
            lemma_entries_grow(fingerprints@, v + 1, fingerprints@.len() as int);
        }
        let more = fingerprints[v].valid_hashes.len();
        if more > u32::MAX as usize - total {
            return None;
        }
        total = total + more;
    }
    Some(total)
}

proof fn lemma_entries_grow(fps: Seq<VideoFingerprint>, m: int, n: int)
    requires
        0 <= m <= n,
    ensures
        entries(fps, m).len() <= entries(fps, n).len(),
    decreases n - m,
{
    if m < n {
        lemma_entries_grow(fps, m, n - 1);
    }
}

/// What is left to do of one video's pairs: everything from `b` on.
spec fn row_done(
    fps: Seq<VideoFingerprint>,
    d: nat,
    min_match_percent: Share,
    min_duration: Seconds,
    matches: Seq<Match>,
    p: Pair,
) -> bool {
    pair_clears(fps, p, d, loose_for(d), min_match_percent, min_duration) ==> is_reported(
        matches,
        p,
    )
}

/// Measure every pair of videos.
fn measure_all<F>(
    fingerprints: &[VideoFingerprint],
    rule: Rule,
    min_match_percent: Share,
    min_duration: Seconds,
    stop: &F,
) -> (matches: Vec<Match>) where F: Fn() -> bool
    requires
        stop.requires(()),
        is_schedule(rule.schedule@),
        rule.tol.loose == loose_for(rule.tol.strict as nat),
        forall|v: int| 0 <= v < fingerprints@.len() ==> is_timed(#[trigger] &fingerprints@[v]),
    ensures
        matches@.len() > 0 ==> stop.ensures((), false),
        are_matches(
            fingerprints@,
            rule.tol.strict as nat,
            rule.tol.loose as nat,
            min_match_percent,
            min_duration,
            matches@,
        ),
        stop.ensures((), true) || forall|p: Pair|
            p.0 < p.1 < fingerprints@.len() ==> #[trigger] row_done(
                fingerprints@,
                rule.tol.strict as nat,
                min_match_percent,
                min_duration,
                matches@,
                p,
            ),
{
    let ghost d = rule.tol.strict as nat;
    let n = fingerprints.len();
    let mut witnesses = Witnesses::new();
    let mut matches: Vec<Match> = Vec::new();
    for a in 0..n
        invariant
            stop.requires(()),
            n == fingerprints@.len(),
            d == rule.tol.strict,
            is_schedule(rule.schedule@),
            rule.tol.loose == loose_for(d),
            forall|v: int| 0 <= v < fingerprints@.len() ==> is_timed(#[trigger] &fingerprints@[v]),
            witnesses.is_valid(),
            matches@.len() > 0 ==> stop.ensures((), false),
            are_matches(
                fingerprints@,
                d,
                rule.tol.loose as nat,
                min_match_percent,
                min_duration,
                matches@,
            ),
            forall|i: int| 0 <= i < matches@.len() ==> (#[trigger] matches@[i]).a < a,
            stop.ensures((), true) || forall|p: Pair|
                p.0 < a && p.0 < p.1 < n ==> #[trigger] row_done(
                    fingerprints@,
                    d,
                    min_match_percent,
                    min_duration,
                    matches@,
                    p,
                ),
    {
        for b in a + 1..n
            invariant
                stop.requires(()),
                n == fingerprints@.len(),
                a < n,
                d == rule.tol.strict,
                is_schedule(rule.schedule@),
                rule.tol.loose == loose_for(d),
                forall|v: int|
                    0 <= v < fingerprints@.len() ==> is_timed(#[trigger] &fingerprints@[v]),
                witnesses.is_valid(),
                matches@.len() > 0 ==> stop.ensures((), false),
                are_matches(
                    fingerprints@,
                    d,
                    rule.tol.loose as nat,
                    min_match_percent,
                    min_duration,
                    matches@,
                ),
                forall|i: int|
                    0 <= i < matches@.len() ==> pair_lt(
                        ((#[trigger] matches@[i]).a, matches@[i].b),
                        (a, b),
                    ),
                stop.ensures((), true) || forall|p: Pair|
                    pair_lt(p, (a, b)) && p.0 < p.1 < n ==> #[trigger] row_done(
                        fingerprints@,
                        d,
                        min_match_percent,
                        min_duration,
                        matches@,
                        p,
                    ),
        {
            assert(is_timed(&fingerprints@[a as int]) && is_timed(&fingerprints@[b as int]));
            let ghost before = matches@;
            match measure_pair(
                fingerprints,
                (a, b),
                rule,
                min_match_percent,
                min_duration,
                &mut witnesses,
                stop,
            ) {
                Some(m) => {
                    matches.push(m);
                    proof {
                        lemma_reported_push(before, m);
                    }
                },
                None => {},
            }
            proof {
                if !stop.ensures((), true) {
                    assert forall|p: Pair| pair_lt(p, (a, (b + 1) as usize)) && p.0 < p.1
                        < n implies #[trigger] row_done(
                        fingerprints@,
                        d,
                        min_match_percent,
                        min_duration,
                        matches@,
                        p,
                    ) by {
                        if pair_lt(p, (a, b)) {
                            assert(row_done(
                                fingerprints@,
                                d,
                                min_match_percent,
                                min_duration,
                                before,
                                p,
                            ));
                        } else {
                            assert(p == (a, b));
                        }
                    }
                }
            }
        }
    }
    matches
}

/// Measure every pair of a list.
fn measure_listed<F>(
    fingerprints: &[VideoFingerprint],
    pairs: &Vec<Pair>,
    rule: Rule,
    min_match_percent: Share,
    min_duration: Seconds,
    stop: &F,
) -> (matches: Vec<Match>) where F: Fn() -> bool
    requires
        stop.requires(()),
        is_schedule(rule.schedule@),
        rule.tol.loose == loose_for(rule.tol.strict as nat),
        forall|v: int| 0 <= v < fingerprints@.len() ==> is_timed(#[trigger] &fingerprints@[v]),
        forall|i: int|
            0 <= i < pairs@.len() ==> {
                let p = #[trigger] pairs@[i];
                p.0 < p.1 < fingerprints@.len()
            },
        forall|i: int, j: int|
            0 <= i < j < pairs@.len() ==> pair_lt(#[trigger] pairs@[i], #[trigger] pairs@[j]),
    ensures
        matches@.len() > 0 ==> stop.ensures((), false),
        are_matches(
            fingerprints@,
            rule.tol.strict as nat,
            rule.tol.loose as nat,
            min_match_percent,
            min_duration,
            matches@,
        ),
        stop.ensures((), true) || forall|i: int|
            0 <= i < pairs@.len() ==> row_done(
                fingerprints@,
                rule.tol.strict as nat,
                min_match_percent,
                min_duration,
                matches@,
                #[trigger] pairs@[i],
            ),
{
    let ghost d = rule.tol.strict as nat;
    let mut witnesses = Witnesses::new();
    let mut matches: Vec<Match> = Vec::new();
    for t in 0..pairs.len()
        invariant
            stop.requires(()),
            d == rule.tol.strict,
            is_schedule(rule.schedule@),
            rule.tol.loose == loose_for(d),
            forall|v: int| 0 <= v < fingerprints@.len() ==> is_timed(#[trigger] &fingerprints@[v]),
            forall|i: int|
                0 <= i < pairs@.len() ==> {
                    let p = #[trigger] pairs@[i];
                    p.0 < p.1 < fingerprints@.len()
                },
            forall|i: int, j: int|
                0 <= i < j < pairs@.len() ==> pair_lt(#[trigger] pairs@[i], #[trigger] pairs@[j]),
            witnesses.is_valid(),
            matches@.len() > 0 ==> stop.ensures((), false),
            are_matches(
                fingerprints@,
                d,
                rule.tol.loose as nat,
                min_match_percent,
                min_duration,
                matches@,
            ),
            forall|i: int, j: int|
                0 <= i < matches@.len() && t <= j < pairs@.len() ==> pair_lt(
                    ((#[trigger] matches@[i]).a, matches@[i].b),
                    #[trigger] pairs@[j],
                ),
            stop.ensures((), true) || forall|i: int|
                0 <= i < t ==> row_done(
                    fingerprints@,
                    d,
                    min_match_percent,
                    min_duration,
                    matches@,
                    #[trigger] pairs@[i],
                ),
    {
        let pair = pairs[t];
        assert(is_timed(&fingerprints@[pair.0 as int]) && is_timed(&fingerprints@[pair.1 as int]));
        let ghost before = matches@;
        match measure_pair(
            fingerprints,
            pair,
            rule,
            min_match_percent,
            min_duration,
            &mut witnesses,
            stop,
        ) {
            Some(m) => {
                matches.push(m);
                proof {
                    lemma_reported_push(before, m);
                    assert(pair == (m.a, m.b));
                }
            },
            None => {},
        }
        proof {
            if !stop.ensures((), true) {
                assert forall|i: int| 0 <= i < t + 1 implies row_done(
                    fingerprints@,
                    d,
                    min_match_percent,
                    min_duration,
                    matches@,
                    #[trigger] pairs@[i],
                ) by {
                    if i < t {
                        assert(row_done(
                            fingerprints@,
                            d,
                            min_match_percent,
                            min_duration,
                            before,
                            pairs@[i],
                        ));
                    }
                }
            }
        }
    }
    matches
}

/// The pairs worth measuring, where looking them up in the index costs no more than
/// measuring every pair outright. Nothing where it costs more, or where there are more
/// hashes than the index can number.
pub fn listed_pairs<F>(
    fingerprints: &[VideoFingerprint],
    tol: Tolerance,
    stop: &F,
) -> (pairs: Option<Vec<Pair>>) where F: Fn() -> bool
    requires
        stop.requires(()),
    ensures
        exists|masks: Seq<u16>| #[trigger]
            is_mask_list(masks, (tol.loose / 4) as nat) && (pairs is Some <==> can_be_numbered(
                fingerprints@,
            ) && index_cost(masks.len(), total_hashes(fingerprints@)) <= direct_cost(
                fingerprints@.len(),
                total_hashes(fingerprints@),
            )),
        pairs matches Some(list) ==> (stop.ensures((), false) && is_candidate_list(
            fingerprints@,
            tol.loose as nat,
            list@,
        )) || (list@.len() == 0 && stop.ensures((), true)),
{
    let masks = probe_masks(probe_radius(tol.widest()));
    assert(is_mask_list(masks@, (tol.loose / 4) as nat));
    match count_hashes(fingerprints) {
        Some(total) => if index_is_cheaper(masks.len(), fingerprints.len(), total) {
            Some(candidate_pairs(fingerprints, &masks, tol.widest(), stop))
        } else {
            None
        },
        None => None,
    }
}

/// Every pair of videos that clears both gates, with the coverage that got them
/// there. Where the run is asked to stop, only some of them.
///
/// The coverage gate asks whether either file is covered enough by the other, which
/// is what lets a short cut from a long video be found.
///
/// Whether candidates come from the index or from every pair is a matter of cost
/// alone: the answer is the same.
pub fn find_all_matches<F>(
    fingerprints: &[VideoFingerprint],
    max_hamming_dist: u32,
    min_match_percent: Share,
    min_duration: Seconds,
    stop: &F,
) -> (matches: Vec<Match>) where F: Fn() -> bool
    requires
        stop.requires(()),
        forall|v: int| 0 <= v < fingerprints@.len() ==> is_timed(#[trigger] &fingerprints@[v]),
    ensures
        matches@.len() > 0 ==> stop.ensures((), false),
        are_matches(
            fingerprints@,
            max_hamming_dist as nat,
            loose_for(max_hamming_dist as nat),
            min_match_percent,
            min_duration,
            matches@,
        ),
        stop.ensures((), true) || forall|p: Pair| #[trigger]
            is_reported(matches@, p) <==> p.0 < p.1 < fingerprints@.len() && pair_clears(
                fingerprints@,
                p,
                max_hamming_dist as nat,
                loose_for(max_hamming_dist as nat),
                min_match_percent,
                min_duration,
            ),
{
    let ghost d = max_hamming_dist as nat;
    let ghost loose = loose_for(d);
    let tol = Tolerance::for_distance(max_hamming_dist);
    let schedule = witness_schedule();
    let rule = Rule { tol, schedule: &schedule };
    let matches: Vec<Match>;
    if let Some(pairs) = listed_pairs(fingerprints, tol, stop) {
        if stop() {
            return Vec::new();
        }
        proof {
            if is_candidate_list(fingerprints@, loose, pairs@) {
                assert forall|i: int| 0 <= i < pairs@.len() implies {
                    let p = #[trigger] pairs@[i];
                    p.0 < p.1 < fingerprints@.len()
                } by {
                    assert(pairs@.contains(pairs@[i]));
                }
            }
        }
        matches = measure_listed(
            fingerprints,
            &pairs,
            rule,
            min_match_percent,
            min_duration,
            stop,
        );
        proof {
            if !stop.ensures((), true) {
                assert forall|p: Pair| p.0 < p.1 < fingerprints@.len() implies #[trigger] row_done(
                    fingerprints@,
                    d,
                    min_match_percent,
                    min_duration,
                    matches@,
                    p,
                ) by {
                    if pair_clears(fingerprints@, p, d, loose, min_match_percent, min_duration) {
                        lemma_match_is_candidate(
                            fingerprints@,
                            p,
                            d,
                            min_match_percent,
                            min_duration,
                        );
                        assert(pairs@.contains(p));
                        let i = choose|i: int| 0 <= i < pairs@.len() && pairs@[i] == p;
                        assert(row_done(
                            fingerprints@,
                            d,
                            min_match_percent,
                            min_duration,
                            matches@,
                            pairs@[i],
                        ));
                    }
                }
            }
        }
    } else {
        matches = measure_all(fingerprints, rule, min_match_percent, min_duration, stop);
    }
    proof {
        if !stop.ensures((), true) {
            assert forall|p: Pair| #[trigger] is_reported(matches@, p) <==> p.0 < p.1
                < fingerprints@.len() && pair_clears(
                fingerprints@,
                p,
                d,
                loose,
                min_match_percent,
                min_duration,
            ) by {
                if is_reported(matches@, p) {
                    let i = choose|i: int|
                        0 <= i < matches@.len() && (#[trigger] matches@[i]).a == p.0
                            && matches@[i].b == p.1;
                    assert(is_match(
                        fingerprints@,
                        d,
                        loose,
                        min_match_percent,
                        min_duration,
                        matches@[i],
                    ));
                }
                if p.0 < p.1 < fingerprints@.len() {
                    assert(row_done(
                        fingerprints@,
                        d,
                        min_match_percent,
                        min_duration,
                        matches@,
                        p,
                    ));
                }
            }
        }
    }
    matches
}

} // verus!
