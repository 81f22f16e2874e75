//! Exact lengths of time and rates.

use vstd::prelude::*;

verus! {

/// What a numerator or denominator stays below.
pub const LIMIT: u128 = 0x1_0000_0000_0000_0000_0000_0000;

/// The largest whole number not above `a * b / c`.
pub open spec fn scaled(a: nat, b: nat, c: nat) -> nat {
    (a * b) / c
}

/// `a * b / c`, rounded down, or the largest `u64` where it does not fit.
pub fn scale(a: u64, b: u128, c: u128) -> (out: u64)
    requires
        c > 0,
    ensures
        scaled(a as nat, b as nat, c as nat) <= u64::MAX ==> out == scaled(
            a as nat,
            b as nat,
            c as nat,
        ),
        scaled(a as nat, b as nat, c as nat) > u64::MAX ==> out == u64::MAX,
{
    let whole: u128 = b / c;
    let part: u128 = b % c;
    let ghost wanted = scaled(a as nat, b as nat, c as nat);
    let mut quotient: u128 = 0;
    let mut remainder: u128 = 0;
    let mut overflowed: bool = false;
    let mut bit: u32 = 64;
    let ghost mut taken: nat = 0;
    proof {
        vstd::arithmetic::div_mod::lemma_fundamental_div_mod(b as int, c as int);
        vstd::arithmetic::mul::lemma_mul_is_commutative(c as int, whole as int);
        assert(b == whole * c + part);
        assert(a as nat / 0x1_0000_0000_0000_0000nat == 0);
        vstd::arithmetic::power2::lemma2_to64();
    }
    while bit > 0
        invariant
            c > 0,
            b == whole * c + part,
            part < c,
            bit <= 64,
            wanted == scaled(a as nat, b as nat, c as nat),
            taken == a as nat / vstd::arithmetic::power2::pow2(bit as nat),
            remainder < c,
            overflowed ==> wanted > u64::MAX,
            !overflowed ==> quotient <= u64::MAX && taken * b == quotient * c + remainder,
        decreases bit,
    {
        bit = bit - 1;
        let set: bool = (a >> bit) & 1 == 1;
        let ghost before = taken;
        proof {
            lemma_next_bit(a, bit);
            taken = a as nat / vstd::arithmetic::power2::pow2(bit as nat);
            assert(taken == 2 * before + (if set { 1nat } else { 0nat }));
            vstd::arithmetic::power2::lemma_pow2_pos(bit as nat);
            assert(taken <= a) by (nonlinear_arith)
                requires
                    taken == a as nat / vstd::arithmetic::power2::pow2(bit as nat),
                    vstd::arithmetic::power2::pow2(bit as nat) > 0,
            ;
        }
        if !overflowed {
            let ghost q0 = quotient;
            let ghost r0 = remainder;
            let mut q: u128 = quotient * 2;
            let mut r: u128 = remainder;
            if r >= c - r {
                r = r - (c - r);
                q = q + 1;
            } else {
                r = r + r;
            }
            assert(2 * (q0 * c + r0) == q * c + r) by (nonlinear_arith)
                requires
                    (q == 2 * q0 + 1 && r == 2 * r0 - c) || (q == 2 * q0 && r == 2 * r0),
            ;
            assert((2 * before) * b == q * c + r) by (nonlinear_arith)
                requires
                    before * b == q0 * c + r0,
                    2 * (q0 * c + r0) == q * c + r,
            ;
            if set {
                let ghost q1 = q;
                let ghost r1 = r;
                let mut extra: u128 = whole;
                if r >= c - part {
                    r = r - (c - part);
                    extra = if extra < u128::MAX {
                        extra + 1
                    } else {
                        extra
                    };
                } else {
                    r = r + part;
                }
                proof {
                    // A quotient of one is the only way the whole part can be as large
                    // as it gets, and then nothing is left over to carry.
                    if whole == u128::MAX {
                        assert(c == 1) by (nonlinear_arith)
                            requires
                                b == whole * c + part,
                                whole == u128::MAX,
                                b <= u128::MAX,
                                0 <= part < c,
                        ;
                    }
                    assert(q1 * c + r1 + b == (q1 + extra) * c + r) by (nonlinear_arith)
                        requires
                            b == whole * c + part,
                            (extra == whole + 1 && r == r1 + part - c) || (extra == whole && r == r1
                                + part),
                    ;
                    assert(taken * b == (2 * before) * b + b) by (nonlinear_arith)
                        requires
                            taken == 2 * before + 1,
                    ;
                }
                if extra > u64::MAX as u128 {
                    overflowed = true;
                    proof {
                        lemma_too_large(a as nat, b as nat, c as nat, taken, (q1 + extra) as nat, r as nat);
                    }
                } else {
                    q = q + extra;
                }
            }
            if !overflowed {
                assert(taken * b == q * c + r);
                if q > u64::MAX as u128 {
                    overflowed = true;
                    proof {
                        lemma_too_large(a as nat, b as nat, c as nat, taken, q as nat, r as nat);
                    }
                }
            }
            quotient = q;
            remainder = r;
        }
    }
    if overflowed {
        u64::MAX
    } else {
        proof {
            vstd::arithmetic::power2::lemma2_to64();
            assert(vstd::arithmetic::power2::pow2(bit as nat) == 1);
            assert(taken == a as nat / 1nat);
            vstd::arithmetic::div_mod::lemma_fundamental_div_mod_converse(
                a as int * b as int,
                c as int,
                quotient as int,
                remainder as int,
            );
        }
        quotient as u64
    }
}

proof fn lemma_next_bit(a: u64, bit: u32)
    requires
        bit < 64,
    ensures
        a as nat / vstd::arithmetic::power2::pow2(bit as nat) == 2 * (a as nat
            / vstd::arithmetic::power2::pow2((bit + 1) as nat)) + (if (a >> bit) & 1 == 1 {
            1nat
        } else {
            0nat
        }),
{
    let p = vstd::arithmetic::power2::pow2(bit as nat);
    vstd::arithmetic::power2::lemma_pow2_pos(bit as nat);
    vstd::arithmetic::power2::lemma_pow2_unfold((bit + 1) as nat);
    vstd::bits::lemma_u64_shr_is_div(a, bit as u64);
    let d = a >> bit;
    assert(d == a >> (bit as u64)) by (bit_vector)
        requires
            d == a >> bit,
            bit < 64,
    ;
    assert(d & 1 == d % 2) by (bit_vector);
    vstd::arithmetic::div_mod::lemma_div_denominator(a as int, p as int, 2);
    assert(p * 2 == 2 * p);
}

proof fn lemma_too_large(a: nat, b: nat, c: nat, taken: nat, q: nat, r: nat)
    requires
        c > 0,
        taken <= a,
        taken * b == q * c + r,
        q > u64::MAX,
    ensures
        scaled(a, b, c) > u64::MAX,
{
    assert(a * b >= q * c) by (nonlinear_arith)
        requires
            taken <= a,
            taken * b == q * c + r,
    ;
    vstd::arithmetic::div_mod::lemma_div_is_ordered((q * c) as int, (a * b) as int, c as int);
    vstd::arithmetic::div_mod::lemma_div_by_multiple(q as int, c as int);
}

/// A product over a divisor, rounded down, is the most that fits.
pub proof fn lemma_scaled(a: nat, b: nat, c: nat)
    requires
        c > 0,
    ensures
        scaled(a, b, c) * c <= a * b < (scaled(a, b, c) + 1) * c,
{
    vstd::arithmetic::div_mod::lemma_fundamental_div_mod((a * b) as int, c as int);
    vstd::arithmetic::div_mod::lemma_mod_bound((a * b) as int, c as int);
    let q = scaled(a, b, c);
    assert(c * q == q * c && (q + 1) * c == q * c + c) by (nonlinear_arith);
}

/// A length of time in seconds, as an exact fraction.
#[derive(Clone, Copy, Debug)]
pub struct Seconds {
    num: u128,
    den: u32,
}

impl Seconds {
    /// The numerator.
    pub closed spec fn num(&self) -> nat {
        self.num as nat
    }

    /// The denominator.
    pub closed spec fn den(&self) -> nat {
        self.den as nat
    }

    #[verifier::type_invariant]
    spec fn is_valid(self) -> bool {
        self.num < LIMIT && self.den > 0
    }

    /// Numerator and denominator.
    pub fn parts(&self) -> (parts: (u128, u32))
        ensures
            parts.0 == self.num(),
            parts.1 == self.den(),
            parts.0 < LIMIT,
            parts.1 > 0,
    {
        proof {
            use_type_invariant(self);
        }
        (self.num, self.den)
    }

    /// The length that was taken apart into these, where they can be one.
    pub fn from_parts(num: u128, den: u32) -> (s: Option<Seconds>)
        ensures
            s is Some <==> num < LIMIT && den > 0,
            s matches Some(x) ==> x.num() == num && x.den() == den,
    {
        if num < LIMIT && den > 0 {
            Some(Seconds { num, den })
        } else {
            None
        }
    }

    /// `ticks` of a clock that counts `tb_num / tb_den` seconds each.
    pub fn from_ticks(ticks: u64, tb_num: u32, tb_den: u32) -> (s: Seconds)
        requires
            tb_den > 0,
        ensures
            s.num() == ticks * tb_num,
            s.den() == tb_den,
    {
        assert(ticks * tb_num < LIMIT) by (nonlinear_arith)
            requires
                ticks < 0x1_0000_0000_0000_0000,
                tb_num < 0x1_0000_0000,
        ;
        Seconds { num: ticks as u128 * tb_num as u128, den: tb_den }
    }

    /// A number of milliseconds.
    pub fn from_ms(ms: u64) -> (s: Seconds)
        ensures
            s.num() == ms,
            s.den() == 1000,
    {
        Seconds { num: ms as u128, den: 1000 }
    }

    /// Whole milliseconds, rounded down, or the largest `u32` where they do not fit.
    pub fn whole_ms(&self) -> (ms: u32)
        ensures
            (self.num() * 1000) / self.den() <= u32::MAX ==> ms == (self.num() * 1000) / self.den(),
            (self.num() * 1000) / self.den() > u32::MAX ==> ms == u32::MAX,
    {
        let (num, den) = self.parts();
        let ms: u128 = num * 1000 / den as u128;
        if ms > u32::MAX as u128 {
            u32::MAX
        } else {
            ms as u32
        }
    }

    /// Is this longer than nothing?
    pub fn is_positive(&self) -> (yes: bool)
        ensures
            yes <==> self.num() > 0,
    {
        let (num, _) = self.parts();
        num > 0
    }
}

/// Frames per second, as an exact fraction. A numerator of zero says the rate is
/// unknown.
#[derive(Clone, Copy, Debug)]
pub struct Rate {
    num: u128,
    den: u128,
}

impl Rate {
    /// The numerator.
    pub closed spec fn num(&self) -> nat {
        self.num as nat
    }

    /// The denominator.
    pub closed spec fn den(&self) -> nat {
        self.den as nat
    }

    #[verifier::type_invariant]
    spec fn is_valid(self) -> bool {
        self.num < LIMIT && 0 < self.den < LIMIT
    }

    /// Numerator and denominator.
    pub fn parts(&self) -> (parts: (u128, u128))
        ensures
            parts.0 == self.num(),
            parts.1 == self.den(),
            parts.0 < LIMIT,
            0 < parts.1 < LIMIT,
    {
        proof {
            use_type_invariant(self);
        }
        (self.num, self.den)
    }

    /// The rate that was taken apart into these, where they can be one.
    pub fn from_parts(num: u128, den: u128) -> (r: Option<Rate>)
        ensures
            r is Some <==> num < LIMIT && 0 < den < LIMIT,
            r matches Some(x) ==> x.num() == num && x.den() == den,
    {
        if num < LIMIT && 0 < den && den < LIMIT {
            Some(Rate { num, den })
        } else {
            None
        }
    }

    /// A rate nobody reported.
    pub fn unknown() -> (r: Rate)
        ensures
            r.num() == 0,
            r.den() == 1,
    {
        Rate { num: 0, den: 1 }
    }

    /// `num / den` frames per second.
    pub fn from_fraction(num: u32, den: u32) -> (r: Rate)
        requires
            den > 0,
        ensures
            r.num() == num,
            r.den() == den,
    {
        Rate { num: num as u128, den: den as u128 }
    }

    /// `frames` spread over a length of time.
    pub fn from_frames(frames: u64, length: &Seconds) -> (r: Rate)
        requires
            length.num() > 0,
        ensures
            r.num() == frames * length.den(),
            r.den() == length.num(),
    {
        let (num, den) = length.parts();
        assert(frames * den < LIMIT) by (nonlinear_arith)
            requires
                frames < 0x1_0000_0000_0000_0000,
                den < 0x1_0000_0000,
        ;
        Rate { num: frames as u128 * den as u128, den: num }
    }
}

} // verus!
