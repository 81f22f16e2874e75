//! Proposing which videos could share footage, through an index of their hashes.

use crate::bits::{lemma_ones_split, ones};
use crate::fingerprint::VideoFingerprint;
use crate::frames::distance;
use crate::seqs::{lemma_filter, lemma_filter_prefix, lemma_filter_push};
use vstd::prelude::*;

verus! {

/// The hash is split into this many equal blocks for indexing.
pub const BLOCKS: usize = 4;

/// Bits in one block.
pub const BLOCK_BITS: usize = 16;

/// How many values one block can take.
pub const BINS: usize = 65536;

/// What one bin probe costs, in units of one hash comparison.
pub const PROBE_COST: usize = 4;

/// What handing one pair on to be measured costs before it compares anything, in
/// the same units.
pub const PAIR_COST: usize = 8;

/// The `k`th block of a hash, most significant first.
pub open spec fn block(hash: u64, k: int) -> u64 {
    if k == 0 {
        hash >> 48
    } else if k == 1 {
        (hash >> 32) & 0xffff
    } else if k == 2 {
        (hash >> 16) & 0xffff
    } else {
        hash & 0xffff
    }
}

/// The `k`th block of a hash, most significant first.
pub fn block_of(hash: u64, k: usize) -> (b: usize)
    requires
        k < BLOCKS,
    ensures
        b == block(hash, k as int),
        b < BINS,
{
    let b: u64 = if k == 0 {
        hash >> 48
    } else if k == 1 {
        (hash >> 32) & 0xffff
    } else if k == 2 {
        (hash >> 16) & 0xffff
    } else {
        hash & 0xffff
    };
    assert(hash >> 48 < 65536 && (hash >> 32) & 0xffff < 65536 && (hash >> 16) & 0xffff < 65536
        && hash & 0xffff < 65536) by (bit_vector);
    b as usize
}

/// Blocks of a difference are differences of blocks.
pub proof fn lemma_block_xor(a: u64, b: u64, k: int)
    ensures
        block(a ^ b, k) == block(a, k) ^ block(b, k),
        block(a, k) < 65536,
{
    assert((a ^ b) >> 48 == (a >> 48) ^ (b >> 48) && ((a ^ b) >> 32) & 0xffff == ((a >> 32) & 0xffff)
        ^ ((b >> 32) & 0xffff) && ((a ^ b) >> 16) & 0xffff == ((a >> 16) & 0xffff) ^ ((b >> 16)
        & 0xffff) && (a ^ b) & 0xffff == (a & 0xffff) ^ (b & 0xffff)) by (bit_vector);
    assert(a >> 48 < 65536 && (a >> 32) & 0xffff < 65536 && (a >> 16) & 0xffff < 65536 && a & 0xffff
        < 65536) by (bit_vector);
}

/// The bits of a hash are those of its four blocks.
proof fn lemma_blocks(x: u64)
    ensures
        ones(x) == ones(block(x, 0)) + ones(block(x, 1)) + ones(block(x, 2)) + ones(block(x, 3)),
{
    vstd::arithmetic::power2::lemma2_to64();
    assert(vstd::arithmetic::power2::pow2(16) == 65536);
    let y = x / 65536;
    let z = y / 65536;
    lemma_ones_split(x, 16);
    lemma_ones_split(y, 16);
    lemma_ones_split(z, 16);
    assert(x % 65536 == x & 0xffff && y % 65536 == (x >> 16) & 0xffff && z % 65536 == (x >> 32)
        & 0xffff && z / 65536 == x >> 48) by (bit_vector)
        requires
            y == x / 65536,
            z == y / 65536,
    ;
}

/// Two hashes within `d` of each other agree to within `d / 4` in some block.
pub proof fn lemma_pigeonhole_block(a: u64, b: u64, d: nat) -> (k: int)
    requires
        distance(a, b) <= d,
    ensures
        0 <= k < BLOCKS,
        ones(block(a, k) ^ block(b, k)) <= d / (BLOCKS as nat),
{
    let x = a ^ b;
    lemma_blocks(x);
    lemma_block_xor(a, b, 0);
    lemma_block_xor(a, b, 1);
    lemma_block_xor(a, b, 2);
    lemma_block_xor(a, b, 3);
    if ones(block(x, 0)) <= d / 4 {
        0
    } else if ones(block(x, 1)) <= d / 4 {
        1
    } else if ones(block(x, 2)) <= d / 4 {
        2
    } else {
        3
    }
}

/// How far around each block the index must look to be exhaustive.
pub fn probe_radius(max_hamming_dist: u32) -> (radius: u32)
    ensures
        radius == max_hamming_dist / 4,
{
    max_hamming_dist / BLOCKS as u32
}

/// What the two routes to the same pairs are estimated to cost.
pub open spec fn index_cost(masks: nat, total: nat) -> nat {
    total * (BLOCKS as nat) * masks * (PROBE_COST as nat + total / (BINS as nat))
}

/// What comparing every pair of videos outright is estimated to cost.
pub open spec fn direct_cost(videos: nat, total: nat) -> nat {
    total * total / 2 + videos * videos / 2 * (PAIR_COST as nat)
}

/// Whether to propose candidates through the index or compare every pair outright.
pub fn index_is_cheaper(masks: usize, videos: usize, total_hashes: usize) -> (yes: bool)
    requires
        masks <= BINS,
        videos <= u32::MAX,
        total_hashes <= u32::MAX,
    ensures
        yes <==> index_cost(masks as nat, total_hashes as nat) <= direct_cost(
            videos as nat,
            total_hashes as nat,
        ),
{
    let t: u128 = total_hashes as u128;
    let v: u128 = videos as u128;
    let bin_len: u128 = t / 65536;
    let per: u128 = PROBE_COST as u128 + bin_len;
    proof {
        assert(t * 4 * masks * per <= 0x1_0000_0000 * 4 * 65536 * 0x2_0000 && t * 4 * masks
            <= 0x1_0000_0000 * 4 * 65536) by (nonlinear_arith)
            requires
                t <= 0xffff_ffff,
                masks <= 65536,
                per <= 0x2_0000,
                0 <= per,
        ;
        assert(t * t <= 0x1_0000_0000 * 0x1_0000_0000 && v * v <= 0x1_0000_0000 * 0x1_0000_0000)
            by (nonlinear_arith)
            requires
                t <= 0xffff_ffff,
                v <= 0xffff_ffff,
        ;
    }
    let index: u128 = t * BLOCKS as u128 * masks as u128 * per;
    let hashes: u128 = t * t / 2;
    let pairs: u128 = v * v / 2;
    let direct: u128 = hashes + pairs * 8;
    index <= direct
}

/// Every pattern of a block with at most `radius` bits set.
pub open spec fn is_mask_list(masks: Seq<u16>, radius: nat) -> bool {
    &&& forall|m: u16| #[trigger] masks.contains(m) <==> ones(m as u64) <= radius
    &&& forall|i: int, j: int|
        0 <= i < j < masks.len() ==> #[trigger] masks[i] < #[trigger] masks[j]
}

/// Every bit pattern to combine a block with, in ascending order.
pub fn probe_masks(radius: u32) -> (masks: Vec<u16>)
    ensures
        is_mask_list(masks@, radius as nat),
        masks@.len() <= BINS,
{
    let mut masks: Vec<u16> = Vec::new();
    for m in 0..BINS as u64
        invariant
            masks@.len() <= m,
            forall|i: int| 0 <= i < masks@.len() ==> #[trigger] masks@[i] < m,
            forall|x: u16| x < m ==> (#[trigger] masks@.contains(x) <==> ones(x as u64) <= radius),
            forall|i: int, j: int|
                0 <= i < j < masks@.len() ==> #[trigger] masks@[i] < #[trigger] masks@[j],
    {
        let ghost before = masks@;
        if m.count_ones() <= radius {
            masks.push(m as u16);
            assert(masks@[before.len() as int] == m as u16);
        }
        proof {
            assert forall|x: u16| x < m + 1 implies (#[trigger] masks@.contains(x) <==> ones(
                x as u64,
            ) <= radius) by {
                if before.contains(x) {
                    let i = choose|i: int| 0 <= i < before.len() && before[i] == x;
                    assert(masks@[i] == x);
                }
                if masks@.contains(x) {
                    let i = choose|i: int| 0 <= i < masks@.len() && masks@[i] == x;
                    if i < before.len() {
                        assert(before[i] == x);
                        assert(before.contains(x));
                    }
                }
            }
        }
    }
    masks
}

/// One stored hash, and the video it came from.
pub type Entry = (u32, u64);

/// The hashes of one video, up to the `m`th.
pub open spec fn video_entries(fp: &VideoFingerprint, v: int, m: int) -> Seq<Entry> {
    Seq::new(m as nat, |i: int| (v as u32, fp.valid_hashes@[i]))
}

/// Every hash of the first `n` videos, in order.
pub open spec fn entries(fps: Seq<VideoFingerprint>, n: int) -> Seq<Entry>
    decreases n,
{
    if n <= 0 {
        Seq::empty()
    } else {
        entries(fps, n - 1) + video_entries(
            &fps[n - 1],
            n - 1,
            fps[n - 1].valid_hashes@.len() as int,
        )
    }
}

/// Every hash of every video.
pub open spec fn all_entries(fps: Seq<VideoFingerprint>) -> Seq<Entry> {
    entries(fps, fps.len() as int)
}

/// How many hashes the videos hold between them.
pub open spec fn total_hashes(fps: Seq<VideoFingerprint>) -> nat {
    all_entries(fps).len()
}

/// The hashes met before the `i`th of video `v`.
spec fn met(fps: Seq<VideoFingerprint>, v: int, i: int) -> Seq<Entry> {
    entries(fps, v) + video_entries(&fps[v], v, i)
}

proof fn lemma_met(fps: Seq<VideoFingerprint>, v: int, i: int)
    requires
        0 <= v < fps.len(),
        0 <= i < fps[v].valid_hashes@.len(),
    ensures
        met(fps, v, i + 1) == met(fps, v, i).push((v as u32, fps[v].valid_hashes@[i])),
        met(fps, v, 0) == entries(fps, v),
        met(fps, v, fps[v].valid_hashes@.len() as int) == entries(fps, v + 1),
{
    assert(met(fps, v, i + 1) =~= met(fps, v, i).push((v as u32, fps[v].valid_hashes@[i])));
    assert(met(fps, v, 0) =~= entries(fps, v));
}

proof fn lemma_met_ends(fps: Seq<VideoFingerprint>, v: int)
    requires
        0 <= v < fps.len(),
    ensures
        met(fps, v, 0) == entries(fps, v),
        met(fps, v, fps[v].valid_hashes@.len() as int) == entries(fps, v + 1),
{
    assert(met(fps, v, 0) =~= entries(fps, v));
}

/// The hashes met are the beginning of all of them.
proof fn lemma_met_prefix(fps: Seq<VideoFingerprint>, v: int, i: int)
    requires
        0 <= v < fps.len(),
        0 <= i <= fps[v].valid_hashes@.len(),
    ensures
        met(fps, v, i).len() <= all_entries(fps).len(),
        met(fps, v, i) == all_entries(fps).take(met(fps, v, i).len() as int),
        i < fps[v].valid_hashes@.len() ==> met(fps, v, i).len() < all_entries(fps).len()
            && all_entries(fps)[met(fps, v, i).len() as int] == (
            v as u32,
            fps[v].valid_hashes@[i],
        ),
{
    lemma_entries_prefix(fps, v + 1, fps.len() as int);
    let all = all_entries(fps);
    let more = entries(fps, v + 1);
    let now = met(fps, v, i);
    assert(now =~= more.take(now.len() as int));
    assert(now =~= all.take(now.len() as int));
    if i < fps[v].valid_hashes@.len() {
        assert(more[now.len() as int] == (v as u32, fps[v].valid_hashes@[i]));
        assert(all.take(more.len() as int)[now.len() as int] == more[now.len() as int]);
    }
}

proof fn lemma_entries_prefix(fps: Seq<VideoFingerprint>, v: int, n: int)
    requires
        0 <= v <= n <= fps.len(),
    ensures
        entries(fps, v).len() <= entries(fps, n).len(),
        entries(fps, v) == entries(fps, n).take(entries(fps, v).len() as int),
    decreases n - v,
{
    if v < n {
        lemma_entries_prefix(fps, v, n - 1);
        assert(entries(fps, v) =~= entries(fps, n).take(entries(fps, v).len() as int));
    } else {
        assert(entries(fps, v) =~= entries(fps, n).take(entries(fps, v).len() as int));
    }
}

/// What the list of hashes holds, in order of video.
pub proof fn lemma_entries(fps: Seq<VideoFingerprint>, n: int)
    requires
        0 <= n <= fps.len(),
        fps.len() <= u32::MAX,
    ensures
        forall|t: int|
            0 <= t < entries(fps, n).len() ==> {
                let e = #[trigger] entries(fps, n)[t];
                e.0 < n && fps[e.0 as int].valid_hashes@.contains(e.1)
            },
        forall|t: int, u: int|
            0 <= t < u < entries(fps, n).len() ==> (#[trigger] entries(fps, n)[t]).0 <= (
            #[trigger] entries(fps, n)[u]).0,
        forall|v: int, i: int|
            0 <= v < n && 0 <= i < fps[v].valid_hashes@.len() ==> entries(fps, n).contains(
                (v as u32, #[trigger] fps[v].valid_hashes@[i]),
            ),
    decreases n,
{
    if n > 0 {
        lemma_entries(fps, n - 1);
        let less = entries(fps, n - 1);
        let m = fps[n - 1].valid_hashes@.len() as int;
        let own = video_entries(&fps[n - 1], n - 1, m);
        let more = entries(fps, n);
        assert forall|t: int| 0 <= t < more.len() implies {
            let e = #[trigger] more[t];
            e.0 < n && fps[e.0 as int].valid_hashes@.contains(e.1)
        } by {
            if t < less.len() {
                assert(more[t] == less[t]);
            } else {
                assert(more[t] == own[t - less.len()]);
                assert(fps[n - 1].valid_hashes@[t - less.len()] == more[t].1);
            }
        }
        assert forall|t: int, u: int| 0 <= t < u < more.len() implies (#[trigger] more[t]).0 <= (
        #[trigger] more[u]).0 by {
            if t < less.len() {
                assert(more[t] == less[t]);
            } else {
                assert(more[t] == own[t - less.len()]);
            }
            if u < less.len() {
                assert(more[u] == less[u]);
            } else {
                assert(more[u] == own[u - less.len()]);
            }
        }
        assert forall|v: int, i: int|
            0 <= v < n && 0 <= i < fps[v].valid_hashes@.len() implies more.contains(
            (v as u32, #[trigger] fps[v].valid_hashes@[i]),
        ) by {
            let e = (v as u32, fps[v].valid_hashes@[i]);
            if v < n - 1 {
                assert(less.contains(e));
                let t = choose|t: int| 0 <= t < less.len() && less[t] == e;
                assert(more[t] == e);
            } else {
                assert(own[i] == e);
                assert(more[less.len() + i] == e);
            }
        }
    }
}

/// The hashes whose block is this value.
pub open spec fn in_bin(list: Seq<Entry>, k: int, b: int) -> Seq<Entry> {
    list.filter(|e: Entry| block(e.1, k) == b)
}

/// How many hashes have a smaller block.
pub open spec fn below_bin(list: Seq<Entry>, k: int, b: int) -> nat {
    list.filter(|e: Entry| block(e.1, k) < b).len()
}

proof fn lemma_below(list: Seq<Entry>, k: int, b: int)
    ensures
        below_bin(list, k, b + 1) == below_bin(list, k, b) + in_bin(list, k, b).len(),
        b <= 0 ==> below_bin(list, k, b) == 0,
        b >= BINS ==> below_bin(list, k, b) == list.len(),
    decreases list.len(),
{
    reveal(Seq::filter);
    if list.len() > 0 {
        lemma_below(list.drop_last(), k, b);
        lemma_block_xor(list.last().1, 0, k);
    }
}

proof fn lemma_below_grows(list: Seq<Entry>, k: int, b: int, c: int)
    requires
        b <= c,
    ensures
        below_bin(list, k, b) <= below_bin(list, k, c),
    decreases c - b,
{
    if b < c {
        lemma_below_grows(list, k, b, c - 1);
        lemma_below(list, k, c - 1);
    }
}

/// A counting-sorted index over one block position: every stored hash, bucketed by
/// the block at that position, beside the video it came from.
pub struct BlockIndex {
    pub hashes: Vec<u64>,
    pub videos: Vec<u32>,
    pub offsets: Vec<u32>,
}

impl BlockIndex {
    /// Each bin holds exactly the hashes with its block, in order of video.
    pub open spec fn is_index(&self, list: Seq<Entry>, k: int) -> bool {
        &&& self.hashes@.len() == list.len()
        &&& self.videos@.len() == list.len()
        &&& self.offsets@.len() == BINS + 1
        &&& forall|b: int| 0 <= b <= BINS ==> #[trigger] self.offsets@[b] == below_bin(list, k, b)
        &&& forall|b: int, r: int|
            0 <= b < BINS && 0 <= r < in_bin(list, k, b).len() ==> #[trigger] self.entry(
                below_bin(list, k, b) + r,
            ) == #[trigger] in_bin(list, k, b)[r]
    }

    /// What is stored at one place.
    pub open spec fn entry(&self, p: int) -> Entry {
        (self.videos@[p], self.hashes@[p])
    }

    /// Index one block position of every video.
    pub fn build(k: usize, fingerprints: &[VideoFingerprint]) -> (index: BlockIndex)
        requires
            k < BLOCKS,
            fingerprints@.len() <= u32::MAX,
            total_hashes(fingerprints@) <= u32::MAX,
        ensures
            index.is_index(all_entries(fingerprints@), k as int),
    {
        let ghost all = all_entries(fingerprints@);
        let ghost kk = k as int;
        let offsets = bin_offsets(k, fingerprints);
        let total = offsets[BINS] as usize;
        proof {
            lemma_below(all, kk, BINS as int);
        }
        let mut hashes: Vec<u64> = Vec::new();
        let mut videos: Vec<u32> = Vec::new();
        let mut cursor: Vec<u32> = Vec::new();
        for p in 0..total
            invariant
                hashes@.len() == p,
                videos@.len() == p,
        {
            hashes.push(0);
            videos.push(0);
        }
        for b in 0..BINS + 1
            invariant
                offsets@.len() == BINS + 1,
                cursor@.len() == b,
                forall|c: int| 0 <= c < b ==> #[trigger] cursor@[c] == offsets@[c],
        {
            cursor.push(offsets[b]);
        }
        let mut index = BlockIndex { hashes, videos, offsets };
        proof {
            assert forall|b: int| #[trigger] in_bin(entries(fingerprints@, 0), kk, b).len() == 0 by {
                reveal(Seq::filter);
            }
        }
        for v in 0..fingerprints.len()
            invariant
                k < BLOCKS,
                kk == k,
                all == all_entries(fingerprints@),
                fingerprints@.len() <= u32::MAX,
                all.len() <= u32::MAX,
                index.hashes@.len() == all.len(),
                index.videos@.len() == all.len(),
                index.offsets@.len() == BINS + 1,
                forall|b: int|
                    0 <= b <= BINS ==> #[trigger] index.offsets@[b] == below_bin(all, kk, b),
                cursor@.len() == BINS + 1,
                is_filled(&index, cursor@, all, entries(fingerprints@, v as int), kk),
        {
            let fp = &fingerprints[v];
            proof {
                lemma_met_ends(fingerprints@, v as int);
            }
            for i in 0..fp.valid_hashes.len()
                invariant
                    k < BLOCKS,
                    kk == k,
                    v < fingerprints@.len(),
                    fingerprints@.len() <= u32::MAX,
                    *fp == fingerprints@[v as int],
                    all == all_entries(fingerprints@),
                    all.len() <= u32::MAX,
                    index.hashes@.len() == all.len(),
                    index.videos@.len() == all.len(),
                    index.offsets@.len() == BINS + 1,
                    forall|b: int|
                        0 <= b <= BINS ==> #[trigger] index.offsets@[b] == below_bin(all, kk, b),
                    cursor@.len() == BINS + 1,
                    is_filled(&index, cursor@, all, met(fingerprints@, v as int, i as int), kk),
            {
                let h = fp.valid_hashes[i];
                let bin = block_of(h, k);
                let pos = cursor[bin] as usize;
                let ghost before = index;
                let ghost old_cursor = cursor@;
                let ghost now = met(fingerprints@, v as int, i as int);
                let ghost e = (v as u32, h);
                proof {
                    lemma_met(fingerprints@, v as int, i as int);
                    lemma_met_prefix(fingerprints@, v as int, i as int);
                    lemma_filter_prefix(all, now.len() as int, |e: Entry| block(e.1, kk) == bin);
                    lemma_below(all, kk, bin as int);
                    lemma_below_grows(all, kk, bin + 1, BINS as int);
                    lemma_below(all, kk, BINS as int);
                    assert(cursor@[bin as int] == below_bin(all, kk, bin as int) + in_bin(
                        now,
                        kk,
                        bin as int,
                    ).len());
                }
                index.hashes.set(pos, h);
                index.videos.set(pos, v as u32);
                let next: u32 = cursor[bin] + 1;
                cursor.set(bin, next);
                proof {
                    lemma_fill(
                        &before,
                        &index,
                        old_cursor,
                        cursor@,
                        all,
                        now,
                        e,
                        kk,
                        bin as int,
                        pos as int,
                    );
                }
            }
            proof {
                lemma_met_ends(fingerprints@, v as int);
            }
        }
        proof {
            assert forall|b: int, r: int|
                0 <= b < BINS && 0 <= r < in_bin(all, kk, b).len() implies #[trigger] index.entry(
                below_bin(all, kk, b) + r,
            ) == #[trigger] in_bin(all, kk, b)[r] by {}
        }
        index
    }

    /// Where one bin begins and ends.
    pub fn bin(&self, key: usize) -> (range: (usize, usize))
        requires
            key < BINS,
            self.offsets@.len() == BINS + 1,
        ensures
            range.0 == self.offsets@[key as int],
            range.1 == self.offsets@[key + 1],
    {
        (self.offsets[key] as usize, self.offsets[key + 1] as usize)
    }
}

/// A bin's range holds its hashes, by ascending video, and lies within the list.
pub proof fn lemma_bin(index: &BlockIndex, list: Seq<Entry>, k: int, b: int)
    requires
        index.is_index(list, k),
        0 <= b < BINS,
    ensures
        0 <= index.offsets@[b] <= index.offsets@[b + 1] <= list.len(),
        index.offsets@[b + 1] == index.offsets@[b] + in_bin(list, k, b).len(),
        forall|p: int|
            index.offsets@[b] <= p < index.offsets@[b + 1] ==> #[trigger] index.entry(p) == in_bin(
                list,
                k,
                b,
            )[p - index.offsets@[b]],
{
    lemma_below(list, k, b);
    lemma_below_grows(list, k, b + 1, BINS as int);
    lemma_below(list, k, BINS as int);
    assert(index.offsets@[b] == below_bin(list, k, b));
    assert(index.offsets@[b + 1] == below_bin(list, k, b + 1));
    assert forall|p: int| index.offsets@[b] <= p < index.offsets@[b + 1] implies #[trigger] index.entry(
        p,
    ) == in_bin(list, k, b)[p - index.offsets@[b]] by {
        let r = p - index.offsets@[b];
        assert(index.entry(below_bin(list, k, b) + r) == in_bin(list, k, b)[r]);
    }
}

/// Every bin holds, in place, what has been met of it so far.
spec fn is_filled(
    index: &BlockIndex,
    cursor: Seq<u32>,
    all: Seq<Entry>,
    now: Seq<Entry>,
    k: int,
) -> bool {
    &&& forall|b: int|
        0 <= b < BINS ==> #[trigger] cursor[b] == below_bin(all, k, b) + in_bin(now, k, b).len()
    &&& forall|b: int, r: int|
        0 <= b < BINS && 0 <= r < in_bin(now, k, b).len() ==> #[trigger] index.entry(
            below_bin(all, k, b) + r,
        ) == #[trigger] in_bin(now, k, b)[r]
}

proof fn lemma_fill(
    before: &BlockIndex,
    after: &BlockIndex,
    old_cursor: Seq<u32>,
    cursor: Seq<u32>,
    all: Seq<Entry>,
    now: Seq<Entry>,
    e: Entry,
    k: int,
    bin: int,
    pos: int,
)
    requires
        is_filled(before, old_cursor, all, now, k),
        now.len() < all.len(),
        now == all.take(now.len() as int),
        all[now.len() as int] == e,
        0 <= bin < BINS,
        bin == block(e.1, k),
        pos == old_cursor[bin],
        old_cursor.len() == BINS + 1,
        cursor == old_cursor.update(bin, (old_cursor[bin] + 1) as u32),
        old_cursor[bin] < u32::MAX,
        before.hashes@.len() == all.len(),
        before.videos@.len() == all.len(),
        0 <= pos < all.len(),
        after.hashes@ == before.hashes@.update(pos, e.1),
        after.videos@ == before.videos@.update(pos, e.0),
    ensures
        is_filled(after, cursor, all, now.push(e), k),
{
    let more = now.push(e);
    assert(more =~= all.take(more.len() as int));
    assert forall|b: int| 0 <= b < BINS implies #[trigger] cursor[b] == below_bin(all, k, b) + in_bin(
        more,
        k,
        b,
    ).len() by {
        lemma_filter_push(now, e, |x: Entry| block(x.1, k) == b);
        assert(old_cursor[b] == below_bin(all, k, b) + in_bin(now, k, b).len());
    }
    assert forall|b: int, r: int|
        0 <= b < BINS && 0 <= r < in_bin(more, k, b).len() implies #[trigger] after.entry(
        below_bin(all, k, b) + r,
    ) == #[trigger] in_bin(more, k, b)[r] by {
        lemma_filter_push(now, e, |x: Entry| block(x.1, k) == b);
        assert(old_cursor[bin] == below_bin(all, k, bin) + in_bin(now, k, bin).len());
        let p = below_bin(all, k, b) + r;
        // A place in one bin is in no other.
        lemma_filter_prefix(all, more.len() as int, |x: Entry| block(x.1, k) == b);
        lemma_filter_prefix(all, more.len() as int, |x: Entry| block(x.1, k) == bin);
        lemma_filter_push(now, e, |x: Entry| block(x.1, k) == bin);
        lemma_below(all, k, b);
        lemma_below(all, k, bin);
        if b < bin {
            lemma_below_grows(all, k, b + 1, bin);
        } else if b > bin {
            lemma_below_grows(all, k, bin + 1, b);
        }
        lemma_below_grows(all, k, b + 1, BINS as int);
        lemma_below(all, k, BINS as int);
        if b == bin && r == in_bin(now, k, b).len() {
            assert(p == pos);
        } else {
            assert(p != pos);
            assert(before.entry(below_bin(all, k, b) + r) == in_bin(now, k, b)[r]);
        }
    }
}

/// Where every bin begins.
fn bin_offsets(k: usize, fingerprints: &[VideoFingerprint]) -> (offsets: Vec<u32>)
    requires
        k < BLOCKS,
        fingerprints@.len() <= u32::MAX,
        total_hashes(fingerprints@) <= u32::MAX,
    ensures
        offsets@.len() == BINS + 1,
        forall|b: int|
            0 <= b <= BINS ==> #[trigger] offsets@[b] == below_bin(
                all_entries(fingerprints@),
                k as int,
                b,
            ),
{
    let ghost all = all_entries(fingerprints@);
    let ghost kk = k as int;
    let mut offsets: Vec<u32> = Vec::new();
    for b in 0..BINS + 1
        invariant
            offsets@.len() == b,
            forall|c: int| 0 <= c < b ==> #[trigger] offsets@[c] == 0,
    {
        offsets.push(0);
    }
    proof {
        assert forall|b: int| #[trigger] in_bin(entries(fingerprints@, 0), kk, b).len() == 0 by {
            reveal(Seq::filter);
        }
    }
    for v in 0..fingerprints.len()
        invariant
            k < BLOCKS,
            kk == k,
            all == all_entries(fingerprints@),
            all.len() <= u32::MAX,
            offsets@.len() == BINS + 1,
            offsets@[0] == 0,
            forall|b: int|
                1 <= b <= BINS ==> #[trigger] offsets@[b] == in_bin(
                    entries(fingerprints@, v as int),
                    kk,
                    b - 1,
                ).len(),
    {
        let fp = &fingerprints[v];
        proof {
            lemma_met_ends(fingerprints@, v as int);
        }
        for i in 0..fp.valid_hashes.len()
            invariant
                k < BLOCKS,
                kk == k,
                v < fingerprints@.len(),
                *fp == fingerprints@[v as int],
                all == all_entries(fingerprints@),
                all.len() <= u32::MAX,
                offsets@.len() == BINS + 1,
                offsets@[0] == 0,
                forall|b: int|
                    1 <= b <= BINS ==> #[trigger] offsets@[b] == in_bin(
                        met(fingerprints@, v as int, i as int),
                        kk,
                        b - 1,
                    ).len(),
        {
            let h = fp.valid_hashes[i];
            let bin = block_of(h, k);
            let ghost now = met(fingerprints@, v as int, i as int);
            let ghost before = offsets@;
            proof {
                lemma_met(fingerprints@, v as int, i as int);
                lemma_met_prefix(fingerprints@, v as int, i as int);
                lemma_filter(now, |e: Entry| block(e.1, kk) == bin);
                assert(before[bin + 1] == in_bin(now, kk, bin as int).len());
            }
            let more: u32 = offsets[bin + 1] + 1;
            offsets.set(bin + 1, more);
            proof {
                assert forall|b: int| 1 <= b <= BINS implies #[trigger] offsets@[b] == in_bin(
                    met(fingerprints@, v as int, i + 1),
                    kk,
                    b - 1,
                ).len() by {
                    lemma_filter_push(
                        now,
                        (v as u32, h),
                        |e: Entry| block(e.1, kk) == b - 1,
                    );
                    assert(before[b] == in_bin(now, kk, b - 1).len());
                }
            }
        }
        proof {
            lemma_met_ends(fingerprints@, v as int);
        }
    }
    proof {
        lemma_below(all, kk, 0);
    }
    for b in 1..BINS + 1
        invariant
            all == all_entries(fingerprints@),
            all.len() <= u32::MAX,
            offsets@.len() == BINS + 1,
            forall|c: int| 0 <= c < b ==> #[trigger] offsets@[c] == below_bin(all, kk, c),
            forall|c: int|
                b <= c <= BINS ==> #[trigger] offsets@[c] == in_bin(all, kk, c - 1).len(),
    {
        proof {
            lemma_below(all, kk, b - 1);
            lemma_filter(all, |e: Entry| block(e.1, kk) < b);
        }
        let sum: u32 = offsets[b - 1] + offsets[b];
        offsets.set(b, sum);
    }
    offsets
}

} // verus!
