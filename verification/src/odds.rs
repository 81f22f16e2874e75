//! What the tolerances and the search for candidates promise in numbers.

use crate::bits::ones;
use crate::candidates::{candidate_pairs, is_candidate, is_candidate_list, share_frame, Pair};
use crate::evidence::{
    carries_budget, hash_counts, hashes_within, lemma_cluster_from, lemma_no_evidence_at_full_width,
    lemma_one_witness_at_the_anchor, lemma_quota_never_softens, max_hamming_distance,
    sigma_below_chance, witness_schedule, witnesses_needed, Tolerance,
};
use crate::fingerprint::VideoFingerprint;
use crate::frames::distance;
use crate::hash_index::{block_of, index_is_cheaper, is_mask_list, probe_masks, probe_radius};
use vstd::arithmetic::power::pow;
use vstd::prelude::*;

verus! {

/// Unrelated hashes are thirty-two bits apart on average, and every deviation below that
/// is four bits less, down to none. No tolerance goes past the average.
pub proof fn lemma_a_deviation_is_four_bits(sigmas: u32, bits: u32, most: u32)
    requires
        call_ensures(sigma_below_chance, (sigmas,), bits),
        call_ensures(max_hamming_distance, (), most),
    ensures
        sigmas <= 8 ==> bits + 4 * sigmas == 32,
        sigmas > 8 ==> bits == 0,
        most == 32,
{
}

/// A tolerance is taken as it is for a frame by itself, and six bits wider for frames that
/// vouch for each other, as far as a hash is wide. Nothing wider is looked for.
pub proof fn lemma_a_tolerance_is_six_bits_wider_at_most(d: u32, tol: Tolerance, widest: u32)
    requires
        call_ensures(Tolerance::for_distance, (d,), tol),
        call_ensures(Tolerance::widest, (&tol,), widest),
    ensures
        tol.strict == d,
        d <= 58 ==> tol.loose == d + 6,
        d > 58 ==> tol.loose == 64,
        widest == tol.loose,
{
}

/// Whether so many frames, each as close as one in `2^64 / near` unrelated ones, are less
/// likely by chance than two that are as close as one in `2^64 / close`.
pub open spec fn is_less_likely(near: nat, close: nat, frames: nat) -> bool {
    pow(near as int, frames) * pow(0x1_0000_0000_0000_0000, 2) <= pow(close as int, 2) * pow(
        0x1_0000_0000_0000_0000,
        frames,
    )
}

/// A frame needs as many witnesses as make it and them less likely by chance than two
/// frames twelve bits apart each, and not one more. It never needs fewer than a closer
/// one; out to twelve bits it needs one; and where no sixty-four frames are enough, no
/// number is.
pub proof fn lemma_what_a_frame_needs(
    schedule: Vec<u32>,
    counts: Vec<u128>,
    d: int,
    e: int,
    frames: nat,
)
    requires
        call_ensures(witness_schedule, (), schedule),
        call_ensures(hash_counts, (), counts),
        0 <= d <= e <= 64,
        2 <= frames <= 64,
    ensures
        schedule@[d] <= schedule@[e],
        d <= 12 ==> schedule@[d] == 1,
        schedule@[64] == u32::MAX,
        schedule@[d] < u32::MAX ==> is_less_likely(
            counts@[d] as nat,
            counts@[12] as nat,
            (schedule@[d] + 1) as nat,
        ),
        is_less_likely(counts@[d] as nat, counts@[12] as nat, frames) ==> schedule@[d] < frames,
{
    assert(schedule@[d] == witnesses_needed(d as nat));
    assert(schedule@[e] == witnesses_needed(e as nat));
    assert(schedule@[64] == witnesses_needed(64));
    assert(counts@[d] == hashes_within(d as nat));
    assert(counts@[12] == hashes_within(12));
    lemma_quota_never_softens(d as nat, e as nat);
    if d <= 12 {
        lemma_one_witness_at_the_anchor(d as nat);
    }
    lemma_no_evidence_at_full_width(64);
    lemma_cluster_from(d as nat, 2);
    assert(crate::evidence::below_chance(5) == 12);
    assert(is_less_likely(counts@[d] as nat, counts@[12] as nat, frames) == carries_budget(
        d as nat,
        frames,
    ));
    if schedule@[d] < u32::MAX {
        let all = (schedule@[d] + 1) as nat;
        assert(carries_budget(d as nat, all));
    }
}

/// One hash alone is no distance from another, all there are lie within sixty-four bits of
/// it, and the wider the distance the more do.
pub proof fn lemma_how_many_hashes_are_near(counts: Vec<u128>)
    requires
        call_ensures(hash_counts, (), counts),
    ensures
        counts@.len() == 65,
        counts@[0] == 1,
        counts@[64] == 0x1_0000_0000_0000_0000,
        forall|d: int, e: int| 0 <= d <= e <= 64 ==> #[trigger] counts@[d] <= #[trigger] counts@[e],
{
    assert(counts@[0] == hashes_within(0));
    assert(counts@[64] == hashes_within(64));
    crate::evidence::lemma_all_hashes(64);
    assert forall|d: int, e: int| 0 <= d <= e <= 64 implies #[trigger] counts@[d]
        <= #[trigger] counts@[e] by {
        crate::evidence::lemma_hashes_within_grow(d as nat, e as nat);
        assert(counts@[d] == hashes_within(d as nat));
        assert(counts@[e] == hashes_within(e as nat));
    }
}

/// A hash is its four blocks, the first one highest.
pub proof fn lemma_a_hash_is_its_four_blocks(
    hash: u64,
    a: usize,
    b: usize,
    c: usize,
    d: usize,
)
    requires
        call_ensures(block_of, (hash, 0), a),
        call_ensures(block_of, (hash, 1), b),
        call_ensures(block_of, (hash, 2), c),
        call_ensures(block_of, (hash, 3), d),
    ensures
        a < 0x1_0000 && b < 0x1_0000 && c < 0x1_0000 && d < 0x1_0000,
        ((a * 0x1_0000 + b) * 0x1_0000 + c) * 0x1_0000 + d == hash,
{
    assert((((hash >> 48) * 0x1_0000 + ((hash >> 32) & 0xffff)) * 0x1_0000 + ((hash >> 16)
        & 0xffff)) * 0x1_0000 + (hash & 0xffff) == hash) by (bit_vector);
}

/// What is looked for around a block is a quarter of the distance, rounded down, and every
/// pattern of that many bits or fewer, in order.
pub proof fn lemma_what_is_looked_for_around_a_block(
    d: u32,
    radius: u32,
    masks: Vec<u16>,
    m: u16,
)
    requires
        call_ensures(probe_radius, (d,), radius),
        call_ensures(probe_masks, (radius,), masks),
    ensures
        radius * 4 <= d < (radius + 1) * 4,
        masks@.contains(m) <==> ones(m as u64) <= radius,
        forall|i: int, j: int|
            0 <= i < j < masks@.len() ==> #[trigger] masks@[i] < #[trigger] masks@[j],
{
    assert(is_mask_list(masks@, radius as nat));
}

/// Candidates are looked up where that costs no more than comparing every pair: four
/// blocks of each hash, with every pattern, at four for the look and one for each hash
/// found there; against one for every two hashes and eight for every two videos.
pub proof fn lemma_when_looking_up_is_cheaper(
    masks: usize,
    videos: usize,
    total: usize,
    yes: bool,
)
    requires
        call_ensures(index_is_cheaper, (masks, videos, total), yes),
    ensures
        yes <==> total * 4 * masks * (4 + total / 65536) <= total * total / 2 + videos * videos / 2
            * 8,
{
    assert(total as nat / 65536 == total / 65536);
}

/// Two videos are proposed where a hash of the one is near enough to a hash of the other,
/// and only there: the earlier video first, each two once, in order.
pub proof fn lemma_two_videos_are_proposed_for_a_frame<F: Fn() -> bool>(
    fps: &[VideoFingerprint],
    masks: &Vec<u16>,
    d: u32,
    stop: &F,
    pairs: Vec<Pair>,
    a: usize,
    b: usize,
    i: int,
    j: int,
)
    requires
        call_ensures(candidate_pairs::<F>, (fps, masks, d, stop), pairs),
        !stop.ensures((), true),
        a < b < fps@.len(),
    ensures
        0 <= i < fps@[a as int].valid_hashes@.len() && 0 <= j < fps@[b as int].valid_hashes@.len()
            && distance(fps@[a as int].valid_hashes@[i], fps@[b as int].valid_hashes@[j]) <= d
            ==> pairs@.contains((a, b)),
        pairs@.contains((a, b)) ==> exists|x: u64, y: u64|
            fps@[a as int].valid_hashes@.contains(x) && fps@[b as int].valid_hashes@.contains(y)
                && #[trigger] distance(x, y) <= d,
        !pairs@.contains((b, a)) && !pairs@.contains((a, a)),
        0 <= i < j < pairs@.len() ==> pairs@[i].0 < pairs@[j].0 || (pairs@[i].0 == pairs@[j].0
            && pairs@[i].1 < pairs@[j].1),
{
    let list = pairs@;
    assert(is_candidate_list(fps@, d as nat, list));
    let p: Pair = (a, b);
    let back: Pair = (b, a);
    let alone: Pair = (a, a);
    assert(list.contains(p) <==> is_candidate(fps@, d as nat, p));
    assert(list.contains(back) <==> is_candidate(fps@, d as nat, back));
    assert(list.contains(alone) <==> is_candidate(fps@, d as nat, alone));
    let ones_of = fps@[a as int].valid_hashes@;
    let others = fps@[b as int].valid_hashes@;
    if 0 <= i < ones_of.len() && 0 <= j < others.len() && distance(ones_of[i], others[j]) <= d {
        assert(ones_of.contains(ones_of[i]) && others.contains(others[j]));
        assert(share_frame(&fps@[a as int], &fps@[b as int], d as nat));
    }
    if list.contains(p) {
        let (x, y) = choose|x: u64, y: u64|
            #[trigger] ones_of.contains(x) && #[trigger] others.contains(y) && distance(x, y) <= d;
        assert(distance(x, y) <= d);
    }
}

} // verus!
