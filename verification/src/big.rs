//! Whole numbers of any size, as far as multiplying and comparing them.

use vstd::arithmetic::power::pow;
use vstd::prelude::*;

verus! {

/// What one limb counts up to.
pub const BASE: u128 = 0x1_0000_0000;

/// The number that limbs, least significant first, stand for.
pub open spec fn value(limbs: Seq<u32>) -> nat
    decreases limbs.len(),
{
    if limbs.len() == 0 {
        0
    } else {
        (value(limbs.drop_last()) + limbs.last() * place((limbs.len() - 1) as nat)) as nat
    }
}

/// What a one in the `k`th limb is worth.
pub open spec fn place(k: nat) -> nat {
    pow(BASE as int, k) as nat
}

proof fn lemma_place(k: nat)
    ensures
        place(k) > 0,
        place(k + 1) == place(k) * BASE,
        place(0) == 1,
{
    vstd::arithmetic::power::lemma_pow_positive(BASE as int, k);
    vstd::arithmetic::power::lemma_pow_positive(BASE as int, k + 1);
    vstd::arithmetic::power::lemma_pow_adds(BASE as int, k, 1);
    vstd::arithmetic::power::lemma_pow1(BASE as int);
    vstd::arithmetic::power::lemma_pow0(BASE as int);
}

proof fn lemma_push(limbs: Seq<u32>, x: u32)
    ensures
        value(limbs.push(x)) == value(limbs) + x * place(limbs.len()),
{
    assert(limbs.push(x).drop_last() =~= limbs);
    lemma_place(limbs.len());
    assert(x * place(limbs.len()) >= 0) by (nonlinear_arith)
        requires
            place(limbs.len()) > 0,
            x >= 0,
    ;
}

proof fn lemma_below(limbs: Seq<u32>)
    ensures
        value(limbs) < place(limbs.len()),
    decreases limbs.len(),
{
    lemma_place(0);
    if limbs.len() > 0 {
        let n = (limbs.len() - 1) as nat;
        lemma_below(limbs.drop_last());
        lemma_place(n);
        let p = place(n);
        let x = limbs.last();
        assert(x * p + p <= p * BASE) by (nonlinear_arith)
            requires
                x < BASE,
        ;
        assert(limbs =~= limbs.drop_last().push(x));
        lemma_push(limbs.drop_last(), x);
    }
}

/// A small number as limbs.
pub fn small(n: u128) -> (limbs: Vec<u32>)
    ensures
        value(limbs@) == n,
{
    let mut limbs: Vec<u32> = Vec::new();
    push_all(&mut limbs, n);
    proof {
        lemma_place(0);
        assert(n * place(0) == n) by (nonlinear_arith)
            requires
                place(0) == 1,
        ;
    }
    limbs
}

/// Add `n` above the limbs there are.
fn push_all(limbs: &mut Vec<u32>, n: u128)
    ensures
        value(final(limbs)@) == value(old(limbs)@) + n * place(old(limbs)@.len()),
        final(limbs)@.len() >= old(limbs)@.len(),
    decreases n,
{
    if n > 0 {
        let low: u32 = (n % BASE) as u32;
        let high: u128 = n / BASE;
        let ghost before = limbs@;
        limbs.push(low);
        proof {
            lemma_push(before, low);
            lemma_place(before.len());
            let p = place(before.len());
            assert(low * p + high * (p * BASE) == n * p) by (nonlinear_arith)
                requires
                    n == high * BASE + low,
            ;
        }
        push_all(limbs, high);
    } else {
        assert(0 * place(limbs@.len()) == 0) by (nonlinear_arith);
    }
}

/// The product with a number of at most sixty-five bits.
pub fn times(limbs: &Vec<u32>, factor: u128) -> (out: Vec<u32>)
    requires
        factor <= 0x1_0000_0000_0000_0000,
    ensures
        value(out@) == value(limbs@) * factor,
{
    let mut out: Vec<u32> = Vec::new();
    let mut carry: u128 = 0;
    proof {
        assert(limbs@.take(0) =~= Seq::<u32>::empty());
        assert(value(limbs@.take(0)) * factor == 0) by (nonlinear_arith)
            requires
                value(limbs@.take(0)) == 0,
        ;
        assert(carry * place(0) == 0) by (nonlinear_arith)
            requires
                carry == 0,
        ;
    }
    for i in 0..limbs.len()
        invariant
            factor <= 0x1_0000_0000_0000_0000,
            out@.len() == i,
            carry <= 0x1_0000_0000_0000_0000,
            value(out@) + carry * place(i as nat) == value(limbs@.take(i as int)) * factor,
    {
        let x: u128 = limbs[i] as u128;
        assert(x * factor <= 0xffff_ffff_0000_0000_0000_0000) by (nonlinear_arith)
            requires
                x <= 0xffff_ffff,
                factor <= 0x1_0000_0000_0000_0000,
        ;
        let sum: u128 = x * factor + carry;
        let low: u32 = (sum % BASE) as u32;
        let ghost before = out@;
        let ghost carried = carry;
        carry = sum / BASE;
        out.push(low);
        proof {
            lemma_push(before, low);
            assert(limbs@.take(i + 1) =~= limbs@.take(i as int).push(limbs@[i as int]));
            lemma_push(limbs@.take(i as int), limbs@[i as int]);
            lemma_place(i as nat);
            let p = place(i as nat);
            let v = value(limbs@.take(i as int));
            assert(value(before) + low * p + carry * (p * BASE) == (v + x * p) * factor)
                by (nonlinear_arith)
                requires
                    value(before) + carried * p == v * factor,
                    x * factor + carried == carry * BASE + low,
            ;
        }
    }
    push_all(&mut out, carry);
    proof {
        assert(limbs@.take(limbs@.len() as int) =~= limbs@);
    }
    out
}

/// The limb at `i`, or zero past the end.
fn limb(limbs: &Vec<u32>, i: usize) -> (x: u32)
    ensures
        x == limb_at(limbs@, i as int),
{
    if i < limbs.len() {
        limbs[i]
    } else {
        0
    }
}

spec fn limb_at(limbs: Seq<u32>, i: int) -> u32 {
    if 0 <= i < limbs.len() {
        limbs[i]
    } else {
        0
    }
}

spec fn padded(limbs: Seq<u32>, n: nat) -> Seq<u32> {
    Seq::new(n, |i: int| limb_at(limbs, i))
}

proof fn lemma_padded(limbs: Seq<u32>, n: nat)
    requires
        limbs.len() <= n,
    ensures
        value(padded(limbs, n)) == value(limbs),
    decreases n,
{
    if n == limbs.len() {
        assert(padded(limbs, n) =~= limbs);
    } else {
        let less = (n - 1) as nat;
        lemma_padded(limbs, less);
        assert(padded(limbs, n) =~= padded(limbs, less).push(0));
        lemma_push(padded(limbs, less), 0);
        assert(0 * place(less) == 0) by (nonlinear_arith);
    }
}

/// Is the first number at least the second?
pub fn at_least(a: &Vec<u32>, b: &Vec<u32>) -> (yes: bool)
    ensures
        yes <==> value(a@) >= value(b@),
{
    let n: usize = if a.len() >= b.len() {
        a.len()
    } else {
        b.len()
    };
    let ghost x = padded(a@, n as nat);
    let ghost y = padded(b@, n as nat);
    proof {
        lemma_padded(a@, n as nat);
        lemma_padded(b@, n as nat);
        assert(x.take(n as int) =~= x);
        assert(y.take(n as int) =~= y);
    }
    let mut i: usize = n;
    while i > 0
        invariant
            i <= n,
            x == padded(a@, n as nat),
            y == padded(b@, n as nat),
            value(a@) - value(b@) == value(x.take(i as int)) - value(y.take(i as int)),
        decreases i,
    {
        i = i - 1;
        let p = limb(a, i);
        let q = limb(b, i);
        proof {
            assert(x.take(i + 1) =~= x.take(i as int).push(p));
            assert(y.take(i + 1) =~= y.take(i as int).push(q));
            lemma_push(x.take(i as int), p);
            lemma_push(y.take(i as int), q);
            lemma_below(x.take(i as int));
            lemma_below(y.take(i as int));
            lemma_place(i as nat);
            let w = place(i as nat);
            if p > q {
                assert(p * w >= q * w + w) by (nonlinear_arith)
                    requires
                        p > q,
                ;
            } else if p < q {
                assert(q * w >= p * w + w) by (nonlinear_arith)
                    requires
                        p < q,
                ;
            }
        }
        if p != q {
            return p > q;
        }
    }
    proof {
        assert(x.take(0) =~= Seq::<u32>::empty());
        assert(y.take(0) =~= Seq::<u32>::empty());
    }
    true
}

} // verus!
