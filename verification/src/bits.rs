//! Counting the bits of a hash.

use vstd::prelude::*;

verus! {

/// How many bits of `x` are set.
pub open spec fn ones(x: u64) -> nat
    decreases x,
{
    if x == 0 {
        0
    } else {
        (x % 2) as nat + ones(x / 2)
    }
}

/// [`u64::count_ones`] returns the number of ones in the binary representation of
/// its argument.
pub assume_specification[ u64::count_ones ](x: u64) -> (n: u32)
    ensures
        n == ones(x),
;

/// Is bit `w` of `x` set?
pub open spec fn has_bit(x: u64, w: u64) -> bool {
    (x >> w) & 1 == 1
}

/// Setting a bit that was clear adds one to the count; setting one that was set
/// changes nothing.
pub proof fn lemma_set_bit(x: u64, w: u64)
    requires
        w < 64,
    ensures
        has_bit(x, w) ==> x | (1u64 << w) == x,
        !has_bit(x, w) ==> ones(x | (1u64 << w)) == ones(x) + 1,
        forall|v: u64|
            v < 64 ==> #[trigger] has_bit(x | (1u64 << w), v) == (has_bit(x, v) || v == w),
    decreases w,
{
    assert((x >> w) & 1 == 1 ==> x | (1u64 << w) == x) by (bit_vector)
        requires
            w < 64,
    ;
    assert forall|v: u64| v < 64 implies #[trigger] has_bit(x | (1u64 << w), v) == (has_bit(x, v)
        || v == w) by {
        assert((((x | (1u64 << w)) >> v) & 1 == 1) == ((x >> v) & 1 == 1 || v == w)) by (bit_vector)
            requires
                w < 64,
                v < 64,
        ;
    }
    if !has_bit(x, w) {
        let y = x | (1u64 << w);
        assert(y != 0) by (bit_vector)
            requires
                y == x | (1u64 << w),
                w < 64,
        ;
        if w == 0 {
            assert((x >> 0u64) & 1 != 1 ==> (x | (1u64 << 0u64)) % 2 == 1 && x % 2 == 0 && (x | (
            1u64 << 0u64)) / 2 == x / 2) by (bit_vector);
            assert(ones(y) == 1 + ones(x / 2));
            if x == 0 {
                assert(x / 2 == 0);
            }
        } else {
            let u = (w - 1) as u64;
            assert(y / 2 == (x / 2) | (1u64 << u) && y % 2 == x % 2 && ((x / 2) >> u) & 1 == (x >> w)
                & 1) by (bit_vector)
                requires
                    y == x | (1u64 << w),
                    u == w - 1,
                    0 < w < 64,
            ;
            lemma_set_bit(x / 2, u);
            if x == 0 {
                assert(x / 2 == 0);
            }
        }
    }
}

/// A number below `2^k` has at most `k` bits set.
pub proof fn lemma_ones_below(x: u64, k: nat)
    requires
        x < vstd::arithmetic::power2::pow2(k),
    ensures
        ones(x) <= k,
    decreases k,
{
    if x > 0 {
        if k == 0 {
            vstd::arithmetic::power2::lemma2_to64();
        } else {
            vstd::arithmetic::power2::lemma_pow2_unfold(k);
            lemma_ones_below(x / 2, (k - 1) as nat);
        }
    }
}

/// The bits of a number are those of its low part and those of the rest.
pub proof fn lemma_ones_split(x: u64, k: nat)
    requires
        k <= 63,
    ensures
        ones(x) == ones((x as nat % vstd::arithmetic::power2::pow2(k)) as u64) + ones(
            (x as nat / vstd::arithmetic::power2::pow2(k)) as u64,
        ),
    decreases k,
{
    let p = vstd::arithmetic::power2::pow2(k);
    vstd::arithmetic::power2::lemma_pow2_pos(k);
    if k == 0 {
        vstd::arithmetic::power2::lemma2_to64();
        assert(x as nat % 1 == 0);
        assert(x as nat / 1 == x);
    } else {
        let q = vstd::arithmetic::power2::pow2((k - 1) as nat);
        vstd::arithmetic::power2::lemma_pow2_pos((k - 1) as nat);
        vstd::arithmetic::power2::lemma_pow2_unfold(k);
        let half = x / 2;
        lemma_ones_split(half, (k - 1) as nat);
        let low = (x as nat % p) as int;
        let n = x as int;
        let h = half as int;
        let t = h / (q as int);
        vstd::arithmetic::div_mod::lemma_div_denominator(n, 2, q as int);
        assert(n / (p as int) == t);
        vstd::arithmetic::div_mod::lemma_fundamental_div_mod(n, p as int);
        vstd::arithmetic::div_mod::lemma_fundamental_div_mod(h, q as int);
        vstd::arithmetic::div_mod::lemma_mod_bound(h, q as int);
        assert(p * t == 2 * (q * t)) by (nonlinear_arith)
            requires
                p == 2 * q,
        ;
        assert(0 <= t <= q * t) by (nonlinear_arith)
            requires
                q > 0,
                t == h / (q as int),
                h >= 0,
        ;
        assert(low == 2 * (h % (q as int)) + n % 2);
        let lo = low as u64;
        assert(ones(x) == n % 2 + ones(half)) by {
            if x == 0 {
                assert(half == 0);
            }
        }
        assert(ones(lo) == low % 2 + ones(lo / 2)) by {
            if lo == 0 {
                assert(lo / 2 == 0);
            }
        }
        assert(lo / 2 == (h % (q as int)) as u64);
    }
}

} // verus!
