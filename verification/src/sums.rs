//! Finite sums of an integer-valued function over an initial segment of the
//! naturals, and the few facts about them that the rest of the library uses.

use vstd::arithmetic::div_mod::lemma_add_mod_noop;
use vstd::prelude::*;

verus! {

/// `g(0) + g(1) + ... + g(n - 1)`.
pub open spec fn sum_to(g: spec_fn(int) -> int, n: nat) -> int
    decreases n,
{
    if n == 0 {
        0
    } else {
        sum_to(g, (n - 1) as nat) + g(n - 1)
    }
}

/// Functions that agree below `n` have the same sum.
pub proof fn lemma_sum_equal(g1: spec_fn(int) -> int, g2: spec_fn(int) -> int, n: nat)
    requires
        forall|i: int| 0 <= i < n ==> #[trigger] g1(i) == g2(i),
    ensures
        sum_to(g1, n) == sum_to(g2, n),
    decreases n,
{
    if n > 0 {
        lemma_sum_equal(g1, g2, (n - 1) as nat);
    }
}

/// Functions that are congruent modulo `p` below `n` have congruent sums.
pub proof fn lemma_sum_congruent(
    g1: spec_fn(int) -> int,
    g2: spec_fn(int) -> int,
    n: nat,
    p: int,
)
    requires
        p > 0,
        forall|i: int| 0 <= i < n ==> #[trigger] g1(i) % p == g2(i) % p,
    ensures
        sum_to(g1, n) % p == sum_to(g2, n) % p,
    decreases n,
{
    if n > 0 {
        let m = (n - 1) as nat;
        lemma_sum_congruent(g1, g2, m, p);
        assert(g1(n - 1) % p == g2(n - 1) % p);
        lemma_add_mod_noop(sum_to(g1, m), g1(n - 1), p);
        lemma_add_mod_noop(sum_to(g2, m), g2(n - 1), p);
    }
}

/// The sum is linear: where `g` is `a * g1 + b * g2` below `n`, its sum is
/// `a` times the sum of `g1` plus `b` times the sum of `g2`.
pub proof fn lemma_sum_linear(
    g: spec_fn(int) -> int,
    g1: spec_fn(int) -> int,
    g2: spec_fn(int) -> int,
    a: int,
    b: int,
    n: nat,
)
    requires
        forall|i: int| 0 <= i < n ==> #[trigger] g(i) == a * g1(i) + b * g2(i),
    ensures
        sum_to(g, n) == a * sum_to(g1, n) + b * sum_to(g2, n),
    decreases n,
{
    if n > 0 {
        let m = (n - 1) as nat;
        lemma_sum_linear(g, g1, g2, a, b, m);
        let s1 = sum_to(g1, m);
        let s2 = sum_to(g2, m);
        let x1 = g1(n - 1);
        let x2 = g2(n - 1);
        assert(g(n - 1) == a * x1 + b * x2);
        assert(a * s1 + b * s2 + (a * x1 + b * x2) == a * (s1 + x1) + b * (s2 + x2))
            by (nonlinear_arith);
    }
}

/// A sum over `[0, a + b)` is the sum over `[0, a)` plus the sum of the
/// function shifted by `a` over `[0, b)`.
pub proof fn lemma_sum_split(
    g: spec_fn(int) -> int,
    shifted: spec_fn(int) -> int,
    a: nat,
    b: nat,
)
    requires
        forall|i: int| 0 <= i < b ==> #[trigger] shifted(i) == g(a + i),
    ensures
        sum_to(g, a + b) == sum_to(g, a) + sum_to(shifted, b),
    decreases b,
{
    if b > 0 {
        lemma_sum_split(g, shifted, a, (b - 1) as nat);
        assert(shifted(b - 1) == g(a + (b - 1)));
    }
}

/// A function that vanishes below `n` everywhere but at `k` sums to its value
/// at `k`.
pub proof fn lemma_sum_single(g: spec_fn(int) -> int, n: nat, k: int)
    requires
        0 <= k < n,
        forall|i: int| 0 <= i < n && i != k ==> #[trigger] g(i) == 0,
    ensures
        sum_to(g, n) == g(k),
    decreases n,
{
    if n - 1 == k {
        lemma_sum_zero(g, (n - 1) as nat);
    } else {
        lemma_sum_single(g, (n - 1) as nat, k);
        assert(g(n - 1) == 0);
    }
}

/// A function that vanishes below `n` sums to zero.
pub proof fn lemma_sum_zero(g: spec_fn(int) -> int, n: nat)
    requires
        forall|i: int| 0 <= i < n ==> #[trigger] g(i) == 0,
    ensures
        sum_to(g, n) == 0,
    decreases n,
{
    if n > 0 {
        lemma_sum_zero(g, (n - 1) as nat);
        assert(g(n - 1) == 0);
    }
}

} // verus!
