//! Powers of two and the smallest power of two at or above a number.
use vstd::prelude::*;

verus! {

/// `n` is a power of two (1, 2, 4, ...).
pub open spec fn is_pow2(n: nat) -> bool
    decreases n,
{
    if n == 1 {
        true
    } else if n >= 2 && n % 2 == 0 {
        is_pow2(n / 2)
    } else {
        false
    }
}

/// Doubles `p` until it reaches `n`.
pub open spec fn next_pow2_from(p: nat, n: nat) -> nat
    decreases (if p >= n { 0 } else { n - p }),
    when p > 0
{
    if p >= n {
        p
    } else {
        next_pow2_from(2 * p, n)
    }
}

/// The smallest power of two that is at least `n` (1 for `n <= 1`).
pub open spec fn next_pow2(n: nat) -> nat {
    next_pow2_from(1, n)
}

/// Twice a power of two is a power of two.
pub proof fn lemma_double_pow2(p: nat)
    requires
        is_pow2(p),
    ensures
        is_pow2(2 * p),
{
    assert((2 * p) / 2 == p);
}

/// Doubling a power of two `p` until it reaches `n` gives a power of two at
/// least `n` and `p`, below `2n` when `p < n`.
pub proof fn lemma_next_pow2_from(p: nat, n: nat)
    requires
        p > 0,
        is_pow2(p),
    ensures
        is_pow2(next_pow2_from(p, n)),
        next_pow2_from(p, n) >= n,
        next_pow2_from(p, n) >= p,
        p < n ==> next_pow2_from(p, n) < 2 * n,
    decreases (if p >= n { 0 } else { n - p }),
{
    if p >= n {
    } else {
        lemma_double_pow2(p);
        lemma_next_pow2_from(2 * p, n);
    }
}

/// The smallest power of two at or above `n` is a power of two, is at least
/// `n`, and is below `2n` whenever `n >= 1`.
pub proof fn lemma_next_pow2(n: nat)
    ensures
        is_pow2(next_pow2(n)),
        next_pow2(n) >= n,
        next_pow2(n) >= 1,
        n >= 1 ==> next_pow2(n) < 2 * n || next_pow2(n) == 1,
{
    lemma_next_pow2_from(1, n);
}

/// Doubling from the same `p` reaches a power at least as large for a
/// larger target.
proof fn lemma_next_pow2_from_monotone(p: nat, a: nat, b: nat)
    requires
        p > 0,
        a <= b,
    ensures
        next_pow2_from(p, a) <= next_pow2_from(p, b),
    decreases (if p >= b { 0 } else { b - p }),
{
    if p >= b {
    } else if p >= a {
        lemma_next_pow2_from_at_least(2 * p, b);
    } else {
        lemma_next_pow2_from_monotone(2 * p, a, b);
    }
}

proof fn lemma_next_pow2_from_at_least(p: nat, n: nat)
    requires
        p > 0,
    ensures
        next_pow2_from(p, n) >= p,
    decreases (if p >= n { 0 } else { n - p }),
{
    if p < n {
        lemma_next_pow2_from_at_least(2 * p, n);
    }
}

/// The smallest power of two at or above a number grows with the number.
pub proof fn lemma_next_pow2_monotone(a: nat, b: nat)
    requires
        a <= b,
    ensures
        next_pow2(a) <= next_pow2(b),
{
    lemma_next_pow2_from_monotone(1, a, b);
}

/// The smallest power of two at or above a power of two is itself.
pub proof fn lemma_next_pow2_of_pow2(m: nat)
    requires
        is_pow2(m),
    ensures
        next_pow2(m) == m,
{
    lemma_next_pow2_from_exact(1, m);
}

proof fn lemma_next_pow2_from_exact(p: nat, m: nat)
    requires
        is_pow2(p),
        is_pow2(m),
        p <= m,
    ensures
        next_pow2_from(p, m) == m,
    decreases m - p,
{
    if p < m {
        lemma_pow2_multiple(m, p);
        let k = m / p;
        assert(m >= 2 * p) by (nonlinear_arith)
            requires
                m % p == 0,
                p > 0,
                m > p,
                k == m / p,
        {
            assert(m == k * p);
            assert(k >= 2);
        }
        lemma_double_pow2(p);
        lemma_next_pow2_from_exact(2 * p, m);
    }
}

/// A power of two that is at least `m` is a multiple of every power of two up
/// to `m`.
pub proof fn lemma_pow2_multiple(p: nat, q: nat)
    requires
        is_pow2(p),
        is_pow2(q),
        q <= p,
    ensures
        p % q == 0,
    decreases p,
{
    if q == 1 {
    } else if p == q {
    } else {
        assert(p >= 2 && p % 2 == 0);
        assert(q >= 2 && q % 2 == 0);
        lemma_pow2_multiple(p / 2, q / 2);
        assert(p == 2 * (p / 2));
        assert(q == 2 * (q / 2));
        assert((p / 2) % (q / 2) == 0);
        let k = (p / 2) / (q / 2);
        assert(p / 2 == k * (q / 2)) by (nonlinear_arith)
            requires
                (p / 2) % (q / 2) == 0,
                q / 2 > 0,
                k == (p / 2) / (q / 2),
        ;
        assert(p == k * q) by (nonlinear_arith)
            requires
                p / 2 == k * (q / 2),
                p == 2 * (p / 2),
                q == 2 * (q / 2),
        ;
        assert(p % q == 0) by (nonlinear_arith)
            requires
                p == k * q,
                q > 0,
        ;
    }
}

/// Exec: the smallest power of two at or above `n`.
pub fn next_power_of_two_u64(n: u64) -> (res: u64)
    requires
        n <= 0x8000_0000_0000_0000,
    ensures
        res == next_pow2(n as nat),
{
    let mut p: u64 = 1;
    while p < n
        invariant
            p > 0,
            is_pow2(p as nat),
            n <= 0x8000_0000_0000_0000,
            next_pow2_from(p as nat, n as nat) == next_pow2(n as nat),
        decreases (if p >= n { 0 } else { n - p }),
    {
        proof {
            lemma_double_pow2(p as nat);
        }
        p = p * 2;
    }
    p
}

/// Exec: the smallest power of two at or above `n`.
pub fn next_power_of_two_usize(n: usize) -> (res: usize)
    requires
        n <= usize::MAX / 2 + 1,
    ensures
        res == next_pow2(n as nat),
{
    let mut p: usize = 1;
    while p < n
        invariant
            p > 0,
            is_pow2(p as nat),
            n <= usize::MAX / 2 + 1,
            next_pow2_from(p as nat, n as nat) == next_pow2(n as nat),
        decreases (if p >= n { 0 } else { n - p }),
    {
        proof {
            lemma_double_pow2(p as nat);
        }
        p = p * 2;
    }
    p
}

} // verus!
