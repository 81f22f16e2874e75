//! Which pairs of videos share at least one frame.

use crate::fingerprint::VideoFingerprint;
use crate::frames::distance;
use crate::hash_index::{
    all_entries, block, block_of, in_bin, is_mask_list, lemma_bin, lemma_block_xor, lemma_entries,
    lemma_pigeonhole_block, total_hashes, BlockIndex, Entry, BINS, BLOCKS,
};
use crate::ordering::{in_order, lemma_same_members, sorted, Precedence};
use crate::seqs::{lemma_filter, lemma_filter_in_order, lemma_push_contains};
use vstd::prelude::*;

verus! {

/// Two videos, by their places in the list.
pub type Pair = (usize, usize);

/// Whether two hashes, one of each video, are within `d` of each other.
pub open spec fn share_frame(a: &VideoFingerprint, b: &VideoFingerprint, d: nat) -> bool {
    exists|x: u64, y: u64|
        #[trigger] a.valid_hashes@.contains(x) && #[trigger] b.valid_hashes@.contains(y) && distance(
            x,
            y,
        ) <= d
}

/// A pair of different videos that share a frame, the earlier one first.
pub open spec fn is_candidate(fps: Seq<VideoFingerprint>, d: nat, p: Pair) -> bool {
    p.0 < p.1 < fps.len() && share_frame(&fps[p.0 as int], &fps[p.1 as int], d)
}

/// Order on pairs.
pub open spec fn pair_lt(x: Pair, y: Pair) -> bool {
    x.0 < y.0 || (x.0 == y.0 && x.1 < y.1)
}

/// Every candidate pair, once each, in order.
pub open spec fn is_candidate_list(fps: Seq<VideoFingerprint>, d: nat, list: Seq<Pair>) -> bool {
    &&& forall|p: Pair| #[trigger] list.contains(p) <==> is_candidate(fps, d, p)
    &&& forall|i: int, j: int|
        0 <= i < j < list.len() ==> pair_lt(#[trigger] list[i], #[trigger] list[j])
}

/// Pairs by first video, then second.
pub struct ByPair;

impl Precedence<Pair> for ByPair {
    open spec fn le(&self, x: Pair, y: Pair) -> bool {
        pair_lt(x, y) || x == y
    }

    open spec fn knows(&self, x: Pair) -> bool {
        true
    }

    proof fn le_is_total(&self, x: Pair, y: Pair) {
    }

    proof fn le_is_transitive(&self, x: Pair, y: Pair, z: Pair) {
    }

    fn precedes(&self, x: &Pair, y: &Pair) -> (yes: bool) {
        x.0 < y.0 || (x.0 == y.0 && x.1 <= y.1)
    }
}

/// Every pair that `less` holds, `more` holds too.
spec fn keeps(less: Seq<Pair>, more: Seq<Pair>) -> bool {
    forall|p: Pair| #[trigger] less.contains(p) ==> more.contains(p)
}

/// Whether every later video with a close hash in this bin has been found.
spec fn bin_done(out: Seq<Pair>, all: Seq<Entry>, k: int, a: usize, x: u64, b: int, d: nat) -> bool {
    forall|e: Entry|
        #[trigger] all.contains(e) && block(e.1, k) == b && e.0 > a && distance(x, e.1) <= d
            ==> out.contains((a, e.0 as usize))
}

proof fn lemma_bin_done(
    less: Seq<Pair>,
    more: Seq<Pair>,
    all: Seq<Entry>,
    k: int,
    a: usize,
    x: u64,
    b: int,
    d: nat,
)
    requires
        bin_done(less, all, k, a, x, b, d),
        keeps(less, more),
    ensures
        bin_done(more, all, k, a, x, b, d),
{
}

/// The bin that a mask leads to.
pub open spec fn probed(x: u64, k: int, mask: u16) -> int {
    (block(x, k) ^ (mask as u64)) as int
}

/// Whether every bin that the first `m` masks lead to has been searched.
spec fn hash_done(
    out: Seq<Pair>,
    all: Seq<Entry>,
    k: int,
    a: usize,
    x: u64,
    masks: Seq<u16>,
    m: int,
    d: nat,
) -> bool {
    forall|t: int|
        0 <= t < m ==> bin_done(out, all, k, a, x, probed(x, k, #[trigger] masks[t]), d)
}

/// Whether the first `m` hashes of a video have been searched for.
spec fn video_done(
    out: Seq<Pair>,
    fps: Seq<VideoFingerprint>,
    k: int,
    a: usize,
    masks: Seq<u16>,
    m: int,
    d: nat,
) -> bool {
    forall|i: int|
        0 <= i < m ==> hash_done(
            out,
            all_entries(fps),
            k,
            a,
            #[trigger] fps[a as int].valid_hashes@[i],
            masks,
            masks.len() as int,
            d,
        )
}

proof fn lemma_video_done(
    less: Seq<Pair>,
    more: Seq<Pair>,
    fps: Seq<VideoFingerprint>,
    k: int,
    a: usize,
    masks: Seq<u16>,
    m: int,
    d: nat,
)
    requires
        video_done(less, fps, k, a, masks, m, d),
        keeps(less, more),
    ensures
        video_done(more, fps, k, a, masks, m, d),
{
    let all = all_entries(fps);
    assert forall|i: int| 0 <= i < m implies hash_done(
        more,
        all,
        k,
        a,
        #[trigger] fps[a as int].valid_hashes@[i],
        masks,
        masks.len() as int,
        d,
    ) by {
        let x = fps[a as int].valid_hashes@[i];
        assert(hash_done(less, all, k, a, x, masks, masks.len() as int, d));
        assert forall|t: int| 0 <= t < masks.len() implies bin_done(
            more,
            all,
            k,
            a,
            x,
            probed(x, k, #[trigger] masks[t]),
            d,
        ) by {
            lemma_bin_done(less, more, all, k, a, x, probed(x, k, masks[t]), d);
        }
    }
}

/// The first place in a range whose video comes after `a`.
fn first_after(videos: &Vec<u32>, from: usize, to: usize, a: usize) -> (at: usize)
    requires
        from <= to <= videos@.len(),
        forall|p: int, q: int|
            from <= p < q < to ==> #[trigger] videos@[p] <= #[trigger] videos@[q],
    ensures
        from <= at <= to,
        forall|p: int| from <= p < at ==> #[trigger] videos@[p] <= a,
        forall|p: int| at <= p < to ==> #[trigger] videos@[p] > a,
{
    let mut lo = from;
    let mut hi = to;
    while lo < hi
        invariant
            from <= lo <= hi <= to <= videos@.len(),
            forall|p: int, q: int|
                from <= p < q < to ==> #[trigger] videos@[p] <= #[trigger] videos@[q],
            forall|p: int| from <= p < lo ==> #[trigger] videos@[p] <= a,
            forall|p: int| hi <= p < to ==> #[trigger] videos@[p] > a,
        decreases hi - lo,
    {
        let mid = lo + (hi - lo) / 2;
        if videos[mid] as usize <= a {
            proof {
                assert forall|p: int| from <= p < mid + 1 implies #[trigger] videos@[p] <= a by {
                    if p < mid {
                        assert(videos@[p] <= videos@[mid as int]);
                    }
                }
            }
            lo = mid + 1;
        } else {
            proof {
                assert forall|p: int| mid <= p < to implies #[trigger] videos@[p] > a by {
                    if p > mid {
                        assert(videos@[mid as int] <= videos@[p]);
                    }
                }
            }
            hi = mid;
        }
    }
    lo
}

/// Whether an entry is a hash of one of the videos.
spec fn is_entry_of(fingerprints: Seq<VideoFingerprint>, e: Entry) -> bool {
    e.0 < fingerprints.len() && fingerprints[e.0 as int].valid_hashes@.contains(e.1)
}

/// Search one bin for later videos with a hash close to `x`.
fn search_bin(
    index: &BlockIndex,
    fingerprints: &[VideoFingerprint],
    k: usize,
    a: usize,
    x: u64,
    key: usize,
    d: u32,
    seen: &mut Vec<u32>,
    out: &mut Vec<Pair>,
)
    requires
        fingerprints@.len() <= u32::MAX,
        index.is_index(all_entries(fingerprints@), k as int),
        k < BLOCKS,
        a < fingerprints@.len(),
        fingerprints@[a as int].valid_hashes@.contains(x),
        key < BINS,
        old(seen)@.len() == fingerprints@.len(),
        forall|v: int|
            0 <= v < old(seen)@.len() ==> {
                let s = #[trigger] old(seen)@[v];
                s <= a + 1 && (s == a + 1 ==> old(out)@.contains((a, v as usize)))
            },
        forall|p: Pair| #[trigger]
            old(out)@.contains(p) ==> is_candidate(fingerprints@, d as nat, p),
    ensures
        final(seen)@.len() == fingerprints@.len(),
        forall|v: int|
            0 <= v < final(seen)@.len() ==> {
                let s = #[trigger] final(seen)@[v];
                s <= a + 1 && (s == a + 1 ==> final(out)@.contains((a, v as usize)))
            },
        forall|p: Pair| #[trigger]
            final(out)@.contains(p) ==> is_candidate(fingerprints@, d as nat, p),
        keeps(old(out)@, final(out)@),
        bin_done(final(out)@, all_entries(fingerprints@), k as int, a, x, key as int, d as nat),
{
    let ghost all = all_entries(fingerprints@);
    let ghost kk = k as int;
    let ghost list = in_bin(all, kk, key as int);
    let ghost old_out = out@;
    let (from, to) = index.bin(key);
    proof {
        lemma_bin(index, all, kk, key as int);
        lemma_entries(fingerprints@, fingerprints@.len() as int);
        lemma_filter(all, |e: Entry| block(e.1, kk) == key);
        lemma_filter_in_order(
            all,
            |e: Entry| block(e.1, kk) == key,
            |e: Entry, f: Entry| e.0 <= f.0,
        );
        assert forall|p: int, q: int| from <= p < q < to implies #[trigger] index.videos@[p]
            <= #[trigger] index.videos@[q] by {
            assert(index.entry(p) == list[p - from]);
            assert(index.entry(q) == list[q - from]);
        }
        assert forall|p: int| from <= p < to implies is_entry_of(
            fingerprints@,
            #[trigger] index.entry(p),
        ) by {
            let e = index.entry(p);
            assert(e == list[p - from]);
            assert(list.contains(e));
            let t = choose|t: int| 0 <= t < all.len() && all[t] == e;
            assert(all[t].0 < fingerprints@.len());
        }
    }
    let start = first_after(&index.videos, from, to, a);
    let mark: u32 = a as u32 + 1;
    for p in start..to
        invariant
            from <= start <= to <= index.videos@.len(),
            index.videos@.len() == index.hashes@.len(),
            fingerprints@.len() <= u32::MAX,
            a < fingerprints@.len(),
            mark == a + 1,
            fingerprints@[a as int].valid_hashes@.contains(x),
            forall|p: int|
                from <= p < to ==> is_entry_of(fingerprints@, #[trigger] index.entry(p)),
            forall|p: int| start <= p < to ==> #[trigger] index.videos@[p] > a,
            seen@.len() == fingerprints@.len(),
            forall|v: int|
                0 <= v < seen@.len() ==> {
                    let s = #[trigger] seen@[v];
                    s <= a + 1 && (s == a + 1 ==> out@.contains((a, v as usize)))
                },
            forall|p: Pair| #[trigger]
                out@.contains(p) ==> is_candidate(fingerprints@, d as nat, p),
            keeps(old_out, out@),
            forall|q: int|
                start <= q < p && distance(x, (#[trigger] index.entry(q)).1) <= d ==> out@.contains(
                    (a, index.entry(q).0 as usize),
                ),
    {
        let b = index.videos[p] as usize;
        let y = index.hashes[p];
        let ghost before = out@;
        assert(index.entry(p as int) == (b as u32, y));
        assert(is_entry_of(fingerprints@, (b as u32, y)));
        if seen[b] == mark {
            assert(out@.contains((a, b)));
        } else if (x ^ y).count_ones() <= d {
            seen.set(b, mark);
            out.push((a, b));
            proof {
                lemma_push_contains(before, (a, b));
                assert(share_frame(
                    &fingerprints@[a as int],
                    &fingerprints@[b as int],
                    d as nat,
                ));
            }
        }
    }
    proof {
        assert forall|e: Entry|
            #[trigger] all.contains(e) && block(e.1, kk) == key && e.0 > a && distance(x, e.1)
                <= d implies out@.contains((a, e.0 as usize)) by {
            assert(list.contains(e));
            let r = choose|r: int| 0 <= r < list.len() && list[r] == e;
            let p = from + r;
            assert(index.entry(p) == list[p - from]);
            if p < start {
                assert(index.videos@[p] <= a);
            }
        }
    }
}

/// Search for every later video that shares a frame with one video, through one block.
fn search_video<F>(
    index: &BlockIndex,
    fingerprints: &[VideoFingerprint],
    k: usize,
    a: usize,
    masks: &Vec<u16>,
    d: u32,
    seen: &mut Vec<u32>,
    out: &mut Vec<Pair>,
    stop: &F,
) -> (finished: bool) where F: Fn() -> bool
    requires
        stop.requires(()),
        fingerprints@.len() <= u32::MAX,
        index.is_index(all_entries(fingerprints@), k as int),
        k < BLOCKS,
        a < fingerprints@.len(),
        old(seen)@.len() == fingerprints@.len(),
        forall|v: int| 0 <= v < old(seen)@.len() ==> #[trigger] old(seen)@[v] <= a,
        forall|p: Pair| #[trigger]
            old(out)@.contains(p) ==> is_candidate(fingerprints@, d as nat, p),
    ensures
        !finished ==> stop.ensures((), true),
        final(seen)@.len() == fingerprints@.len(),
        forall|v: int| 0 <= v < final(seen)@.len() ==> #[trigger] final(seen)@[v] <= a + 1,
        forall|p: Pair| #[trigger]
            final(out)@.contains(p) ==> is_candidate(fingerprints@, d as nat, p),
        keeps(old(out)@, final(out)@),
        finished ==> video_done(
            final(out)@,
            fingerprints@,
            k as int,
            a,
            masks@,
            fingerprints@[a as int].valid_hashes@.len() as int,
            d as nat,
        ),
{
    if stop() {
        return false;
    }
    let ghost all = all_entries(fingerprints@);
    let ghost kk = k as int;
    let ghost old_out = out@;
    let fp = &fingerprints[a];
    for i in 0..fp.valid_hashes.len()
        invariant
            stop.requires(()),
            fingerprints@.len() <= u32::MAX,
            all == all_entries(fingerprints@),
            kk == k,
            index.is_index(all, kk),
            k < BLOCKS,
            a < fingerprints@.len(),
            *fp == fingerprints@[a as int],
            seen@.len() == fingerprints@.len(),
            forall|v: int|
                0 <= v < seen@.len() ==> {
                    let s = #[trigger] seen@[v];
                    s <= a + 1 && (s == a + 1 ==> out@.contains((a, v as usize)))
                },
            forall|p: Pair| #[trigger]
                out@.contains(p) ==> is_candidate(fingerprints@, d as nat, p),
            old_out == old(out)@,
            keeps(old_out, out@),
            video_done(out@, fingerprints@, kk, a, masks@, i as int, d as nat),
    {
        if stop() {
            return false;
        }
        let x = fp.valid_hashes[i];
        let key = block_of(x, k);
        let ghost before = out@;
        for m in 0..masks.len()
            invariant
                fingerprints@.len() <= u32::MAX,
                all == all_entries(fingerprints@),
                kk == k,
                index.is_index(all, kk),
                k < BLOCKS,
                key == block(x, kk),
                key < BINS,
                a < fingerprints@.len(),
                fingerprints@[a as int].valid_hashes@.contains(x),
                seen@.len() == fingerprints@.len(),
                forall|v: int|
                    0 <= v < seen@.len() ==> {
                        let s = #[trigger] seen@[v];
                        s <= a + 1 && (s == a + 1 ==> out@.contains((a, v as usize)))
                    },
                forall|p: Pair| #[trigger]
                    out@.contains(p) ==> is_candidate(fingerprints@, d as nat, p),
                keeps(before, out@),
                hash_done(out@, all, kk, a, x, masks@, m as int, d as nat),
        {
            let mask = masks[m];
            let bin: u64 = (key as u64) ^ (mask as u64);
            proof {
                let key64 = key as u64;
                assert((key64 ^ (mask as u64)) < 65536) by (bit_vector)
                    requires
                        key64 < 65536,
                ;
            }
            let ghost step = out@;
            search_bin(index, fingerprints, k, a, x, bin as usize, d, seen, out);
            proof {
                assert forall|t: int| 0 <= t < m + 1 implies bin_done(
                    out@,
                    all,
                    kk,
                    a,
                    x,
                    probed(x, kk, #[trigger] masks@[t]),
                    d as nat,
                ) by {
                    if t < m {
                        lemma_bin_done(
                            step,
                            out@,
                            all,
                            kk,
                            a,
                            x,
                            probed(x, kk, masks@[t]),
                            d as nat,
                        );
                    }
                }
            }
        }
        proof {
            lemma_video_done(before, out@, fingerprints@, kk, a, masks@, i as int, d as nat);
        }
    }
    true
}

/// Drop repeats from a list of pairs that is in order.
fn without_repeats(pairs: &Vec<Pair>) -> (out: Vec<Pair>)
    requires
        in_order(pairs@, &ByPair),
    ensures
        forall|p: Pair| #[trigger] out@.contains(p) <==> pairs@.contains(p),
        forall|i: int, j: int|
            0 <= i < j < out@.len() ==> pair_lt(#[trigger] out@[i], #[trigger] out@[j]),
{
    let mut out: Vec<Pair> = Vec::new();
    for t in 0..pairs.len()
        invariant
            in_order(pairs@, &ByPair),
            forall|p: Pair| #[trigger] out@.contains(p) <==> pairs@.take(t as int).contains(p),
            forall|i: int, j: int|
                0 <= i < j < out@.len() ==> pair_lt(#[trigger] out@[i], #[trigger] out@[j]),
    {
        let p = pairs[t];
        let ghost before = out@;
        let len = out.len();
        let fresh = len == 0 || out[len - 1].0 != p.0 || out[len - 1].1 != p.1;
        proof {
            assert(pairs@.take(t + 1) =~= pairs@.take(t as int).push(p));
            lemma_push_contains(pairs@.take(t as int), p);
            assert forall|i: int| 0 <= i < before.len() implies ByPair.le(#[trigger] before[i], p) by {
                assert(before.contains(before[i]));
                assert(pairs@.take(t as int).contains(before[i]));
                let s = choose|s: int|
                    0 <= s < pairs@.take(t as int).len() && pairs@.take(t as int)[s] == before[i];
                assert(pairs@[s] == before[i]);
                assert(ByPair.le(pairs@[s], pairs@[t as int]));
            }
        }
        if fresh {
            out.push(p);
            proof {
                lemma_push_contains(before, p);
                assert forall|i: int, j: int| 0 <= i < j < out@.len() implies pair_lt(
                    #[trigger] out@[i],
                    #[trigger] out@[j],
                ) by {
                    if j == before.len() {
                        assert(ByPair.le(before[i], p));
                        let last = before[before.len() - 1];
                        assert(ByPair.le(last, p));
                        if i < before.len() - 1 {
                            assert(pair_lt(before[i], last));
                        }
                    }
                }
            }
        } else {
            assert(before[before.len() - 1] == p);
        }
    }
    assert(pairs@.take(pairs@.len() as int) =~= pairs@);
    out
}

/// Every pair of videos that shares a frame within the given distance: none is
/// proposed that does not, and none is missed. Nothing is proposed once asked to stop.
///
/// The blocks are indexed one at a time, and repeats are dropped after each.
pub fn candidate_pairs<F>(
    fingerprints: &[VideoFingerprint],
    masks: &Vec<u16>,
    max_hamming_dist: u32,
    stop: &F,
) -> (pairs: Vec<Pair>) where F: Fn() -> bool
    requires
        stop.requires(()),
        fingerprints@.len() <= u32::MAX,
        total_hashes(fingerprints@) <= u32::MAX,
        is_mask_list(masks@, (max_hamming_dist / 4) as nat),
    ensures
        (stop.ensures((), false) && is_candidate_list(
            fingerprints@,
            max_hamming_dist as nat,
            pairs@,
        )) || (pairs@.len() == 0 && stop.ensures((), true)),
{
    let n = fingerprints.len();
    let d = max_hamming_dist;
    let mut candidates: Vec<Pair> = Vec::new();
    for k in 0..BLOCKS
        invariant
            stop.requires(()),
            n == fingerprints@.len(),
            d == max_hamming_dist,
            fingerprints@.len() <= u32::MAX,
            total_hashes(fingerprints@) <= u32::MAX,
            k > 0 ==> stop.ensures((), false),
            forall|p: Pair| #[trigger]
                candidates@.contains(p) ==> is_candidate(fingerprints@, d as nat, p),
            forall|i: int, j: int|
                0 <= i < j < candidates@.len() ==> pair_lt(
                    #[trigger] candidates@[i],
                    #[trigger] candidates@[j],
                ),
            forall|kk: int| #![trigger pass_done(candidates@, fingerprints@, kk, masks@, d as nat)]
                0 <= kk < k ==> pass_done(candidates@, fingerprints@, kk, masks@, d as nat),
    {
        if stop() {
            return Vec::new();
        }
        let index = BlockIndex::build(k, fingerprints);
        let mut seen: Vec<u32> = Vec::new();
        for v in 0..n
            invariant
                seen@.len() == v,
                forall|u: int| 0 <= u < v ==> #[trigger] seen@[u] == 0,
        {
            seen.push(0);
        }
        let ghost before = candidates@;
        for a in 0..n
            invariant
                stop.requires(()),
                n == fingerprints@.len(),
                d == max_hamming_dist,
                fingerprints@.len() <= u32::MAX,
                k < BLOCKS,
                index.is_index(all_entries(fingerprints@), k as int),
                seen@.len() == n,
                forall|v: int| 0 <= v < seen@.len() ==> #[trigger] seen@[v] <= a,
                forall|p: Pair| #[trigger]
                    candidates@.contains(p) ==> is_candidate(fingerprints@, d as nat, p),
                keeps(before, candidates@),
                forall|v: int|
                    0 <= v < a ==> #[trigger] subject_done(
                        candidates@,
                        fingerprints@,
                        k as int,
                        v,
                        masks@,
                        d as nat,
                    ),
        {
            let ghost step = candidates@;
            if !search_video(
                &index,
                fingerprints,
                k,
                a,
                masks,
                d,
                &mut seen,
                &mut candidates,
                stop,
            ) {
                return Vec::new();
            }
            proof {
                assert forall|v: int| 0 <= v < a + 1 implies #[trigger] subject_done(
                    candidates@,
                    fingerprints@,
                    k as int,
                    v,
                    masks@,
                    d as nat,
                ) by {
                    if v < a {
                        assert(subject_done(step, fingerprints@, k as int, v, masks@, d as nat));
                        lemma_video_done(
                            step,
                            candidates@,
                            fingerprints@,
                            k as int,
                            v as usize,
                            masks@,
                            fingerprints@[v].valid_hashes@.len() as int,
                            d as nat,
                        );
                    }
                }
            }
        }
        let ghost found = candidates@;
        let ordered = sorted(&candidates, &ByPair);
        candidates = without_repeats(&ordered);
        proof {
            lemma_same_members(ordered@, found);
            assert(keeps(found, candidates@));
            assert forall|kk: int|
                #![trigger pass_done(candidates@, fingerprints@, kk, masks@, d as nat)]
                0 <= kk < k + 1 implies pass_done(
                candidates@,
                fingerprints@,
                kk,
                masks@,
                d as nat,
            ) by {
                if kk < k {
                    lemma_pass_done(before, found, fingerprints@, kk, masks@, d as nat);
                } else {
                    assert(pass_done(found, fingerprints@, kk, masks@, d as nat));
                }
                lemma_pass_done(found, candidates@, fingerprints@, kk, masks@, d as nat);
            }
        }
    }
    proof {
        assert forall|p: Pair| #[trigger] candidates@.contains(p) <==> is_candidate(
            fingerprints@,
            d as nat,
            p,
        ) by {
            if is_candidate(fingerprints@, d as nat, p) {
                lemma_found(candidates@, fingerprints@, masks@, d as nat, p);
            }
        }
    }
    candidates
}

/// Whether one video has been searched for through one block.
spec fn subject_done(
    out: Seq<Pair>,
    fps: Seq<VideoFingerprint>,
    k: int,
    v: int,
    masks: Seq<u16>,
    d: nat,
) -> bool {
    video_done(out, fps, k, v as usize, masks, fps[v].valid_hashes@.len() as int, d)
}

/// Whether every video has been searched for through one block.
spec fn pass_done(
    out: Seq<Pair>,
    fps: Seq<VideoFingerprint>,
    k: int,
    masks: Seq<u16>,
    d: nat,
) -> bool {
    forall|v: int| 0 <= v < fps.len() ==> #[trigger] subject_done(out, fps, k, v, masks, d)
}

proof fn lemma_pass_done(
    less: Seq<Pair>,
    more: Seq<Pair>,
    fps: Seq<VideoFingerprint>,
    k: int,
    masks: Seq<u16>,
    d: nat,
)
    requires
        pass_done(less, fps, k, masks, d),
        keeps(less, more),
    ensures
        pass_done(more, fps, k, masks, d),
{
    assert forall|v: int| 0 <= v < fps.len() implies #[trigger] subject_done(
        more,
        fps,
        k,
        v,
        masks,
        d,
    ) by {
        assert(subject_done(less, fps, k, v, masks, d));
        lemma_video_done(
            less,
            more,
            fps,
            k,
            v as usize,
            masks,
            fps[v].valid_hashes@.len() as int,
            d,
        );
    }
}

/// Once every block has been searched, no candidate is missing.
proof fn lemma_found(
    out: Seq<Pair>,
    fps: Seq<VideoFingerprint>,
    masks: Seq<u16>,
    d: nat,
    p: Pair,
)
    requires
        fps.len() <= u32::MAX,
        is_mask_list(masks, d / 4),
        forall|k: int|
            #![trigger pass_done(out, fps, k, masks, d)]
            0 <= k < BLOCKS ==> pass_done(out, fps, k, masks, d),
        is_candidate(fps, d, p),
    ensures
        out.contains(p),
{
    let all = all_entries(fps);
    let a = p.0 as int;
    let b = p.1 as int;
    let (x, y) = choose|x: u64, y: u64|
        #[trigger] fps[a].valid_hashes@.contains(x) && #[trigger] fps[b].valid_hashes@.contains(y)
            && distance(x, y) <= d;
    let k = lemma_pigeonhole_block(x, y, d);
    let u = block(x, k);
    let w = block(y, k);
    lemma_block_xor(x, y, k);
    lemma_block_xor(y, x, k);
    let mask = (u ^ w) as u16;
    assert(((u ^ w) as u16) as u64 == u ^ w && u ^ (u ^ w) == w) by (bit_vector)
        requires
            u < 65536,
            w < 65536,
    ;
    assert(masks.contains(mask));
    let t = choose|t: int| 0 <= t < masks.len() && masks[t] == mask;
    let i = choose|i: int| 0 <= i < fps[a].valid_hashes@.len() && fps[a].valid_hashes@[i] == x;
    let j = choose|j: int| 0 <= j < fps[b].valid_hashes@.len() && fps[b].valid_hashes@[j] == y;
    lemma_entries(fps, fps.len() as int);
    let e: Entry = (b as u32, fps[b].valid_hashes@[j]);
    assert(all.contains(e));
    assert(pass_done(out, fps, k, masks, d));
    assert(subject_done(out, fps, k, a, masks, d));
    assert(hash_done(out, all, k, p.0, fps[a].valid_hashes@[i], masks, masks.len() as int, d));
    assert(bin_done(out, all, k, p.0, x, probed(x, k, masks[t]), d));
    assert(out.contains((p.0, e.0 as usize)));
}

} // verus!
