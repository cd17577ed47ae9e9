//! Integer sizing rules: base-2 logarithms rounded up and halving rounded up.
use vstd::prelude::*;
use vstd::arithmetic::power2::{pow2, lemma_pow2_unfold};

verus! {

/// The least `k` with `2^k >= n` (0 for `n <= 1`): `ceil(log2(n))`.
pub open spec fn ceil_log2(n: nat) -> nat
    decreases n,
{
    if n <= 1 {
        0
    } else {
        1 + ceil_log2(((n + 1) / 2) as nat)
    }
}

/// `ceil_log2(n)` is the least `k` with `n <= 2^k`.
pub proof fn lemma_ceil_log2_least_power(n: nat)
    ensures
        n <= pow2(ceil_log2(n)),
        ceil_log2(n) >= 1 ==> pow2((ceil_log2(n) - 1) as nat) < n,
    decreases n,
{
    vstd::arithmetic::power2::lemma2_to64();
    if n > 1 {
        let m = ((n + 1) / 2) as nat;
        lemma_ceil_log2_least_power(m);
        let k = ceil_log2(m);
        lemma_pow2_unfold(k + 1);
        assert(ceil_log2(n) == k + 1);
        if k >= 1 {
            lemma_pow2_unfold(k);
        }
    }
}

/// `s` halved `i` times, rounding up each time: `ceil(s / 2^i)`.
pub open spec fn halved_up(s: nat, i: nat) -> nat
    decreases i,
{
    if i == 0 {
        s
    } else {
        ((halved_up(s, (i - 1) as nat) + 1) / 2) as nat
    }
}

pub proof fn lemma_ceil_log2_bound(n: nat, e: nat)
    requires
        n <= pow2(e),
    ensures
        ceil_log2(n) <= e,
    decreases n,
{
    if n > 1 {
        if e == 0 {
            vstd::arithmetic::power2::lemma2_to64();
        } else {
            lemma_pow2_unfold(e);
            lemma_ceil_log2_bound(((n + 1) / 2) as nat, (e - 1) as nat);
        }
    }
}

/// `ceil(log2(n))` of a `usize` is at most 64.
pub proof fn lemma_ceil_log2_usize(n: usize)
    ensures
        ceil_log2(n as nat) <= 64,
{
    assert(pow2(64) == 0x1_0000_0000_0000_0000) by {
        vstd::arithmetic::power2::lemma2_to64();
    }
    lemma_ceil_log2_bound(n as nat, 64);
}

pub proof fn lemma_ceil_log2_le(n: nat)
    ensures
        ceil_log2(n) <= n,
        n >= 2 ==> ceil_log2(n) >= 1,
        n >= 1 ==> 2 * ceil_log2(n) <= n + 2,
    decreases n,
{
    if n > 1 {
        let m = ((n + 1) / 2) as nat;
        lemma_ceil_log2_le(m);
        if n <= 4 {
            reveal_with_fuel(ceil_log2, 4);
        }
    }
}

/// `s` halved `i` times, rounding up each time, is `s / 2^i` rounded up.
pub proof fn lemma_halved_up_is_ceil_div(s: nat, i: nat)
    ensures
        halved_up(s, i) == (s + pow2(i) - 1) / (pow2(i) as int),
    decreases i,
{
    vstd::arithmetic::power2::lemma2_to64();
    if i > 0 {
        lemma_halved_up_is_ceil_div(s, (i - 1) as nat);
        let p = pow2((i - 1) as nat) as int;
        lemma_pow2_unfold(i);
        vstd::arithmetic::power2::lemma_pow2_pos((i - 1) as nat);
        let x = s + p - 1;
        assert(x >= 0);
        vstd::arithmetic::div_mod::lemma_div_plus_one(x, p);
        assert(p + x == s + 2 * p - 1);
        vstd::arithmetic::div_mod::lemma_div_denominator(s + 2 * p - 1, p, 2);
        assert(p * 2 == pow2(i));
        assert(halved_up(s, i) == ((x / p) + 1) / 2);
        assert(((x / p) + 1) / 2 == (s + 2 * p - 1) / (p * 2));
        assert((s + pow2(i) - 1) == s + 2 * p - 1);
    } else {
        assert(pow2(0) == 1);
        assert((s + 1 - 1) / 1int == s) by (nonlinear_arith);
    }
}

pub proof fn lemma_halved_up_le(s: nat, i: nat)
    ensures
        halved_up(s, i) <= s,
    decreases i,
{
    if i > 0 {
        lemma_halved_up_le(s, (i - 1) as nat);
    }
}

/// Computes `ceil_log2(n)`.
pub fn ceil_log2_exec(n: usize) -> (k: usize)
    ensures
        k == ceil_log2(n as nat),
{
    proof {
        lemma_ceil_log2_usize(n);
    }
    let mut m: usize = n;
    let mut k: usize = 0;
    while m > 1
        invariant
            k + ceil_log2(m as nat) == ceil_log2(n as nat),
            ceil_log2(n as nat) <= 64,
        decreases m,
    {
        assert(((m as nat + 1) / 2) as nat == (m / 2 + m % 2) as nat);
        m = m / 2 + m % 2;
        k = k + 1;
    }
    k
}

} // verus!
