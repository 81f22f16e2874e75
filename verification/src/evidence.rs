//! How much a frame match is worth, by how far apart its two hashes are.
//!
//! Two unrelated frame hashes differ in about half their bits, give or take a
//! standard deviation of four. Every threshold here is stated in that deviation.

use crate::big::{at_least, small, times, value};
use vstd::arithmetic::power::pow;
use vstd::arithmetic::power2::pow2;
use vstd::prelude::*;

verus! {

/// Width of a frame hash, and the largest distance any two of them can be apart.
pub const HASH_BITS: u32 = 64;

/// One standard deviation of the distance between two unrelated frame hashes:
/// half the square root of the hash width.
pub const SIGMA: u32 = 4;

/// The distance, in deviations below chance, at which one witness is exactly
/// enough.
pub const EVIDENCE_ANCHOR_SIGMA: u32 = 5;

/// How much looser than the tolerance a corroborated frame match may be: one and
/// a half deviations.
pub const CORROBORATION_SLACK: u32 = 6;

/// How many matches at the anchor a corroborated cluster has to be worth.
pub const CORROBORATION_BUDGET: u32 = 2;

/// A distance some deviations below the mean distance of unrelated hashes.
pub open spec fn below_chance(sigmas: nat) -> nat {
    if sigmas * SIGMA <= HASH_BITS / 2 {
        (HASH_BITS / 2 - sigmas * SIGMA) as nat
    } else {
        0
    }
}

/// A distance some deviations below the mean distance of unrelated hashes.
pub fn sigma_below_chance(sigmas: u32) -> (bits: u32)
    ensures
        bits == below_chance(sigmas as nat),
{
    let mean: u32 = HASH_BITS / 2;
    if sigmas <= mean / SIGMA {
        mean - sigmas * SIGMA
    } else {
        0
    }
}

/// The largest tolerance a run accepts: chance itself.
pub fn max_hamming_distance() -> (bits: u32)
    ensures
        bits == HASH_BITS / 2,
        bits == below_chance(0),
{
    sigma_below_chance(0)
}

/// How many ways there are to pick `k` of `n` bits.
pub open spec fn ways(n: nat, k: nat) -> nat
    decreases n,
{
    if k == 0 {
        1
    } else if n == 0 {
        0
    } else {
        ways((n - 1) as nat, (k - 1) as nat) + ways((n - 1) as nat, k)
    }
}

/// How many `n`-bit words are within `d` bits of a given one.
pub open spec fn words_within(n: nat, d: nat) -> nat
    decreases d,
{
    if d == 0 {
        ways(n, 0)
    } else {
        words_within(n, (d - 1) as nat) + ways(n, d)
    }
}

/// How many hashes are within `d` bits of a given one. Out of all `2^64`, that is
/// the chance of an unrelated hash being so close.
pub open spec fn hashes_within(d: nat) -> nat {
    words_within(HASH_BITS as nat, d)
}

proof fn lemma_words_step(n: nat, d: nat)
    requires
        n > 0,
    ensures
        d == 0 ==> words_within(n, d) == 1,
        d > 0 ==> words_within(n, d) == words_within((n - 1) as nat, d) + words_within(
            (n - 1) as nat,
            (d - 1) as nat,
        ),
    decreases d,
{
    if d > 0 {
        let m = (n - 1) as nat;
        let e = (d - 1) as nat;
        lemma_words_step(n, e);
        assert(words_within(n, d) == words_within(n, e) + ways(n, d));
        assert(ways(n, d) == ways(m, e) + ways(m, d));
        assert(words_within(m, d) == words_within(m, e) + ways(m, d));
        if e > 0 {
            assert(words_within(m, e) == words_within(m, (e - 1) as nat) + ways(m, e));
        } else {
            assert(words_within(m, e) == ways(m, e));
            assert(words_within(n, e) == 1);
            assert(ways(m, e) == 1);
        }
    }
}

proof fn lemma_words_bound(n: nat, d: nat)
    ensures
        1 <= words_within(n, d) <= pow2(n),
    decreases n, d,
{
    vstd::arithmetic::power2::lemma_pow2_pos(n);
    if n == 0 {
        vstd::arithmetic::power2::lemma2_to64();
        lemma_no_bits(d);
    } else {
        vstd::arithmetic::power2::lemma_pow2_unfold(n);
        vstd::arithmetic::power2::lemma_pow2_pos((n - 1) as nat);
        lemma_words_step(n, d);
        lemma_words_bound((n - 1) as nat, d);
        if d > 0 {
            lemma_words_bound((n - 1) as nat, (d - 1) as nat);
        }
    }
}

proof fn lemma_no_bits(d: nat)
    ensures
        words_within(0, d) == 1,
    decreases d,
{
    if d > 0 {
        lemma_no_bits((d - 1) as nat);
    }
}

/// A count of hashes is never none and never more than all of them.
pub proof fn lemma_hashes_within(d: nat)
    ensures
        1 <= hashes_within(d) <= 0x1_0000_0000_0000_0000,
{
    lemma_words_bound(HASH_BITS as nat, d);
    vstd::arithmetic::power2::lemma2_to64();
}

/// More hashes are within a wider distance.
pub proof fn lemma_hashes_within_grow(d: nat, e: nat)
    requires
        d <= e,
    ensures
        hashes_within(d) <= hashes_within(e),
    decreases e - d,
{
    if d < e {
        lemma_hashes_within_grow(d, (e - 1) as nat);
    }
}

proof fn lemma_ways_bound(n: nat, k: nat)
    requires
        n <= 64,
    ensures
        ways(n, k) <= 0x1_0000_0000_0000_0000,
        k > n ==> ways(n, k) == 0,
{
    lemma_words_bound(n, k);
    lemma_words_ways(n, k);
    vstd::arithmetic::power2::lemma2_to64();
    if n < 64 {
        vstd::arithmetic::power2::lemma_pow2_strictly_increases(n, 64);
    }
    lemma_too_many(n, k);
}

proof fn lemma_words_ways(n: nat, k: nat)
    ensures
        ways(n, k) <= words_within(n, k),
{
}

proof fn lemma_too_many(n: nat, k: nat)
    ensures
        k > n ==> ways(n, k) == 0,
    decreases n,
{
    if n > 0 && k > n {
        lemma_too_many((n - 1) as nat, (k - 1) as nat);
        lemma_too_many((n - 1) as nat, k);
    }
}

/// How many hashes are within each distance of a given one, by distance.
pub fn hash_counts() -> (counts: Vec<u128>)
    ensures
        counts@.len() == HASH_BITS + 1,
        forall|d: int| 0 <= d <= HASH_BITS ==> #[trigger] counts@[d] == hashes_within(d as nat),
{
    let size: usize = HASH_BITS as usize + 1;
    let mut row: Vec<u128> = Vec::new();
    for k in 0..size
        invariant
            row@.len() == k,
            forall|j: int| 0 <= j < k ==> #[trigger] row@[j] == ways(0, j as nat),
    {
        row.push(
            if k == 0 {
                1
            } else {
                0
            },
        );
    }
    for n in 0..HASH_BITS as usize
        invariant
            size == HASH_BITS + 1,
            row@.len() == size,
            forall|j: int| 0 <= j < size ==> #[trigger] row@[j] == ways(n as nat, j as nat),
    {
        let mut k: usize = size - 1;
        while k > 0
            invariant
                size == HASH_BITS + 1,
                n < HASH_BITS,
                row@.len() == size,
                k < size,
                forall|j: int| 0 <= j <= k ==> #[trigger] row@[j] == ways(n as nat, j as nat),
                forall|j: int|
                    k < j < size ==> #[trigger] row@[j] == ways((n + 1) as nat, j as nat),
            decreases k,
        {
            proof {
                lemma_ways_bound(n as nat, k as nat);
                lemma_ways_bound(n as nat, (k - 1) as nat);
            }
            let sum: u128 = row[k - 1] + row[k];
            row.set(k, sum);
            k = k - 1;
        }
    }
    let mut counts: Vec<u128> = Vec::new();
    let mut total: u128 = 0;
    for d in 0..size
        invariant
            size == HASH_BITS + 1,
            row@.len() == size,
            forall|j: int| 0 <= j < size ==> #[trigger] row@[j] == ways(
                HASH_BITS as nat,
                j as nat,
            ),
            counts@.len() == d,
            d == 0 ==> total == 0,
            d > 0 ==> total == hashes_within((d - 1) as nat),
            forall|j: int| 0 <= j < d ==> #[trigger] counts@[j] == hashes_within(j as nat),
    {
        proof {
            lemma_hashes_within(d as nat);
        }
        total = total + row[d];
        counts.push(total);
    }
    counts
}

/// Do `size` matches at this distance carry the evidence of two at the anchor?
///
/// A cluster of matches that agree on one time offset is roughly that many
/// independent coincidences, so the chances multiply: the cluster is at least as
/// improbable as the budget when
/// `(within(d) / 2^64)^size <= (within(anchor) / 2^64)^2`.
pub open spec fn carries_budget(d: nat, size: nat) -> bool {
    pow(hashes_within(d) as int, size) * pow(0x1_0000_0000_0000_0000, CORROBORATION_BUDGET as nat)
        <= pow(hashes_within(below_chance(EVIDENCE_ANCHOR_SIGMA as nat)) as int, CORROBORATION_BUDGET as nat)
        * pow(0x1_0000_0000_0000_0000, size)
}

/// The smallest cluster, of `from` or more, that carries the budget.
pub open spec fn cluster_from(d: nat, from: nat) -> Option<nat>
    decreases HASH_BITS + 1 - from,
{
    if from > HASH_BITS {
        None
    } else if carries_budget(d, from) {
        Some(from)
    } else {
        cluster_from(d, from + 1)
    }
}

/// How many witnesses a frame match at this distance needs: one fewer than the
/// smallest cluster that carries the budget, or no attainable number at all.
pub open spec fn witnesses_needed(d: nat) -> u32 {
    match cluster_from(d, 2) {
        Some(size) => (size - 1) as u32,
        None => u32::MAX,
    }
}

pub proof fn lemma_cluster_from(d: nat, from: nat)
    requires
        from >= 2,
    ensures
        cluster_from(d, from) matches Some(size) ==> from <= size <= HASH_BITS && carries_budget(
            d,
            size,
        ),
        forall|size: nat|
            from <= size <= HASH_BITS && #[trigger] carries_budget(d, size) ==> cluster_from(
                d,
                from,
            ) is Some && cluster_from(d, from)->0 <= size,
    decreases HASH_BITS + 1 - from,
{
    if from <= HASH_BITS && !carries_budget(d, from) {
        lemma_cluster_from(d, from + 1);
    }
}

/// A quota that can be met asks for between one witness and one fewer than the
/// hash has bits.
pub proof fn lemma_witnesses_needed(d: nat)
    ensures
        witnesses_needed(d) != u32::MAX ==> 1 <= witnesses_needed(d) < HASH_BITS,
{
    lemma_cluster_from(d, 2);
}

/// The quota never softens as the distance grows.
pub proof fn lemma_quota_never_softens(d: nat, e: nat)
    requires
        d <= e,
    ensures
        witnesses_needed(d) <= witnesses_needed(e),
{
    lemma_cluster_from(d, 2);
    lemma_cluster_from(e, 2);
    if cluster_from(e, 2) is Some {
        let size = cluster_from(e, 2)->0;
        lemma_hashes_within(d);
        lemma_hashes_within(e);
        lemma_hashes_within_grow(d, e);
        lemma_pow_grows(hashes_within(d), hashes_within(e), size);
        let unit = pow(0x1_0000_0000_0000_0000, CORROBORATION_BUDGET as nat);
        vstd::arithmetic::power::lemma_pow_positive(
            0x1_0000_0000_0000_0000,
            CORROBORATION_BUDGET as nat,
        );
        let x = pow(hashes_within(d) as int, size);
        let y = pow(hashes_within(e) as int, size);
        assert(x * unit <= y * unit) by (nonlinear_arith)
            requires
                x <= y,
                unit > 0,
        ;
        assert(carries_budget(d, size));
    }
}

proof fn lemma_unfold(x: int, n: nat)
    requires
        n > 0,
    ensures
        pow(x, n) == x * pow(x, (n - 1) as nat),
{
    vstd::arithmetic::power::lemma_pow_adds(x, 1, (n - 1) as nat);
    vstd::arithmetic::power::lemma_pow1(x);
}

proof fn lemma_pow_grows(a: nat, b: nat, n: nat)
    requires
        a <= b,
    ensures
        0 <= pow(a as int, n) <= pow(b as int, n),
    decreases n,
{
    if n == 0 {
        vstd::arithmetic::power::lemma_pow0(a as int);
        vstd::arithmetic::power::lemma_pow0(b as int);
    } else {
        let m = (n - 1) as nat;
        lemma_pow_grows(a, b, m);
        lemma_unfold(a as int, n);
        lemma_unfold(b as int, n);
        let x = pow(a as int, m);
        let y = pow(b as int, m);
        assert(0 <= a * x <= b * y) by (nonlinear_arith)
            requires
                0 <= a <= b,
                0 <= x <= y,
        ;
    }
}

/// Two witnesses short of nothing: at the anchor and closer, exactly one is enough.
pub proof fn lemma_one_witness_at_the_anchor(d: nat)
    requires
        d <= below_chance(EVIDENCE_ANCHOR_SIGMA as nat),
    ensures
        witnesses_needed(d) == 1,
{
    let anchor = below_chance(EVIDENCE_ANCHOR_SIGMA as nat);
    lemma_hashes_within(d);
    lemma_hashes_within_grow(d, anchor);
    lemma_pow_grows(hashes_within(d), hashes_within(anchor), 2);
    vstd::arithmetic::power::lemma_pow_positive(0x1_0000_0000_0000_0000, 2);
    let unit = pow(0x1_0000_0000_0000_0000, 2);
    let x = pow(hashes_within(d) as int, 2);
    let y = pow(hashes_within(anchor) as int, 2);
    assert(x * unit <= y * unit) by (nonlinear_arith)
        requires
            x <= y,
            unit > 0,
    ;
    assert(carries_budget(d, 2));
}

/// No cluster of matches as far apart as two hashes can be is evidence.
pub proof fn lemma_no_evidence_at_full_width(d: nat)
    requires
        d >= HASH_BITS,
    ensures
        witnesses_needed(d) == u32::MAX,
{
    lemma_cluster_from(d, 2);
    if cluster_from(d, 2) is Some {
        let size = cluster_from(d, 2)->0;
        let all: int = 0x1_0000_0000_0000_0000;
        lemma_all_hashes(d);
        let anchor = below_chance(EVIDENCE_ANCHOR_SIGMA as nat);
        lemma_fewer_at_anchor();
        let near = hashes_within(anchor) as int;
        vstd::arithmetic::power::lemma_pow_positive(all, size);
        let u = pow(all, size);
        lemma_square(all);
        lemma_square(near);
        assert(near * near < all * all) by (nonlinear_arith)
            requires
                0 <= near < all,
        ;
        assert((near * near) * u < u * (all * all)) by (nonlinear_arith)
            requires
                near * near < all * all,
                u > 0,
        ;
    }
}

proof fn lemma_square(x: int)
    ensures
        pow(x, 2) == x * x,
{
    lemma_unfold(x, 2);
    vstd::arithmetic::power::lemma_pow1(x);
}

proof fn lemma_all_words(n: nat, d: nat)
    requires
        d >= n,
    ensures
        words_within(n, d) == pow2(n),
    decreases n,
{
    if n == 0 {
        lemma_no_bits(d);
        vstd::arithmetic::power2::lemma2_to64();
    } else {
        lemma_words_step(n, d);
        lemma_all_words((n - 1) as nat, d);
        lemma_all_words((n - 1) as nat, (d - 1) as nat);
        vstd::arithmetic::power2::lemma_pow2_unfold(n);
    }
}

pub proof fn lemma_all_hashes(d: nat)
    requires
        d >= HASH_BITS,
    ensures
        hashes_within(d) == 0x1_0000_0000_0000_0000,
{
    lemma_all_words(HASH_BITS as nat, d);
    vstd::arithmetic::power2::lemma2_to64();
}

/// Some hashes are further away than the anchor.
proof fn lemma_fewer_at_anchor()
    ensures
        hashes_within(below_chance(EVIDENCE_ANCHOR_SIGMA as nat)) < 0x1_0000_0000_0000_0000,
{
    let anchor = below_chance(EVIDENCE_ANCHOR_SIGMA as nat);
    assert(anchor == 12);
    lemma_hashes_within_grow(13, 64);
    lemma_all_hashes(64);
    lemma_some_ways(64, 13);
}

proof fn lemma_some_ways(n: nat, k: nat)
    requires
        k <= n,
    ensures
        ways(n, k) > 0,
    decreases n,
{
    if n > 0 && k > 0 {
        lemma_some_ways((n - 1) as nat, (k - 1) as nat);
    }
}

/// How many witnesses a frame match at each distance needs, by distance.
pub fn witness_schedule() -> (schedule: Vec<u32>)
    ensures
        schedule@.len() == HASH_BITS + 1,
        forall|d: int|
            0 <= d <= HASH_BITS ==> #[trigger] schedule@[d] == witnesses_needed(d as nat),
{
    let counts = hash_counts();
    let anchor: usize = sigma_below_chance(EVIDENCE_ANCHOR_SIGMA) as usize;
    let all: u128 = 0x1_0000_0000_0000_0000;
    let near: u128 = counts[anchor];
    proof {
        lemma_hashes_within(anchor as nat);
        lemma_square(near as int);
        lemma_square(all as int);
    }
    let mut schedule: Vec<u32> = Vec::new();
    for d in 0..HASH_BITS as usize + 1
        invariant
            counts@.len() == HASH_BITS + 1,
            forall|d: int|
                0 <= d <= HASH_BITS ==> #[trigger] counts@[d] == hashes_within(d as nat),
            anchor == below_chance(EVIDENCE_ANCHOR_SIGMA as nat),
            all == 0x1_0000_0000_0000_0000,
            near == hashes_within(anchor as nat),
            near <= all,
            pow(near as int, 2) == near * near,
            pow(all as int, 2) == all * all,
            schedule@.len() == d,
            forall|j: int| 0 <= j < d ==> #[trigger] schedule@[j] == witnesses_needed(j as nat),
    {
        let each: u128 = counts[d];
        proof {
            lemma_hashes_within(d as nat);
        }
        // Both sides of the comparison for a cluster of two.
        let one = small(1);
        let mut cluster = times(&times(&one, each), each);
        cluster = times(&times(&cluster, all), all);
        let mut budget = times(&times(&one, near), near);
        budget = times(&times(&budget, all), all);
        proof {
            lemma_square(each as int);
            assert(value(cluster@) == pow(each as int, 2) * pow(all as int, 2)) by (nonlinear_arith)
                requires
                    value(cluster@) == (((1 * each) * each) * all) * all,
                    pow(each as int, 2) == each * each,
                    pow(all as int, 2) == all * all,
            ;
            assert(value(budget@) == pow(near as int, 2) * pow(all as int, 2)) by (nonlinear_arith)
                requires
                    value(budget@) == (((1 * near) * near) * all) * all,
                    pow(near as int, 2) == near * near,
                    pow(all as int, 2) == all * all,
            ;
        }
        let mut needed: u32 = u32::MAX;
        let mut size: u32 = 2;
        let mut found: bool = false;
        while size <= HASH_BITS && !found
            invariant
                d <= HASH_BITS,
                each == hashes_within(d as nat),
                each <= all,
                near <= all,
                all == 0x1_0000_0000_0000_0000,
                anchor == below_chance(EVIDENCE_ANCHOR_SIGMA as nat),
                near == hashes_within(anchor as nat),
                2 <= size <= HASH_BITS + 1,
                !found ==> needed == u32::MAX,
                !found ==> cluster_from(d as nat, 2) == cluster_from(d as nat, size as nat),
                !found ==> value(cluster@) == pow(each as int, size as nat) * pow(all as int, 2),
                !found ==> value(budget@) == pow(near as int, 2) * pow(all as int, size as nat),
                found ==> needed == witnesses_needed(d as nat),
            decreases HASH_BITS + 1 - size + (if found { 0int } else { 1int }),
        {
            if at_least(&budget, &cluster) {
                needed = size - 1;
                found = true;
            } else {
                let ghost c = value(cluster@);
                let ghost b = value(budget@);
                cluster = times(&cluster, each);
                budget = times(&budget, all);
                proof {
                    let n = (size + 1) as nat;
                    lemma_unfold(each as int, n);
                    lemma_unfold(all as int, n);
                    let p = pow(each as int, size as nat);
                    let q = pow(all as int, size as nat);
                    let s = pow(all as int, 2);
                    let t = pow(near as int, 2);
                    assert((p * s) * each == (each * p) * s) by (nonlinear_arith);
                    assert((t * q) * all == t * (all * q)) by (nonlinear_arith);
                }
                size = size + 1;
            }
        }
        schedule.push(needed);
    }
    schedule
}

/// The two Hamming distances one tolerance implies.
///
/// `strict` is what a frame match needs on its own; `loose` is what it needs when
/// enough other matches agree with it about the time offset between the videos.
#[derive(Clone, Copy, Debug, PartialEq, Eq, Structural)]
pub struct Tolerance {
    pub strict: u32,
    pub loose: u32,
}

impl Tolerance {
    /// The tolerance itself, and a fixed distance above it, as far as the hash is
    /// wide.
    pub fn for_distance(max_hamming_dist: u32) -> (tol: Tolerance)
        ensures
            tol.strict == max_hamming_dist,
            tol.loose == loose_for(max_hamming_dist as nat),
    {
        let raised: u32 = if max_hamming_dist <= u32::MAX - CORROBORATION_SLACK {
            max_hamming_dist + CORROBORATION_SLACK
        } else {
            u32::MAX
        };
        let loose: u32 = if raised < HASH_BITS {
            raised
        } else {
            HASH_BITS
        };
        Tolerance { strict: max_hamming_dist, loose }
    }

    /// The widest distance any frame match can be admitted at.
    pub fn widest(&self) -> (bits: u32)
        ensures
            bits == self.loose,
    {
        self.loose
    }
}

/// The distance a corroborated match may be at.
pub open spec fn loose_for(d: nat) -> nat {
    if d + CORROBORATION_SLACK < HASH_BITS {
        (d + CORROBORATION_SLACK) as nat
    } else {
        HASH_BITS as nat
    }
}

/// Raising the tolerance raises both distances, or leaves them as they are.
pub proof fn lemma_tolerance_is_monotone(d: nat, e: nat)
    requires
        d <= e,
    ensures
        loose_for(d) <= loose_for(e),
        d <= HASH_BITS ==> d <= loose_for(d),
{
}

} // verus!
