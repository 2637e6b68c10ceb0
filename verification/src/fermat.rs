//! Fermat's little theorem: modulo a prime `p`, `a^(p - 1)` is one for every
//! `a` that `p` does not divide, so that `a^(p - 2)` is the inverse of `a`.
//!
//! The proof goes by the binomial theorem: `p` divides every binomial
//! coefficient of `p` but the first and the last, hence `(a + 1)^p` is
//! `a^p + 1` modulo `p`, and `a^p` is `a` by induction.

use crate::field::inverse_spec;
use crate::modular::{
    lemma_cancel, lemma_congruent_add, lemma_congruent_mul, lemma_prime_divides_product,
};
use crate::prime::is_prime_spec;
use crate::sums::{
    lemma_sum_congruent, lemma_sum_linear, lemma_sum_single, lemma_sum_split, sum_to,
};
use vstd::arithmetic::div_mod::{
    lemma_mod_bound, lemma_mod_multiples_basic, lemma_mod_twice, lemma_small_mod,
};
use vstd::arithmetic::power::{
    lemma0_pow, lemma_pow0, lemma_pow1, lemma_pow_adds, lemma_pow_mod_noop, pow,
};
use vstd::prelude::*;

verus! {

/// The binomial coefficient `n` over `k`, by Pascal's rule; zero where `k` is
/// outside `[0, n]`.
pub open spec fn binomial(n: nat, k: int) -> int
    decreases n,
{
    if k < 0 || k > n {
        0
    } else if n == 0 {
        1
    } else {
        binomial((n - 1) as nat, k - 1) + binomial((n - 1) as nat, k)
    }
}

/// The first and the last coefficient of every row are one.
pub proof fn lemma_binomial_ends(n: nat)
    ensures
        binomial(n, 0) == 1,
        binomial(n, n as int) == 1,
    decreases n,
{
    if n > 0 {
        let up = (n - 1) as nat;
        lemma_binomial_ends(up);
        assert(binomial(up, -1) == 0);
        assert(binomial(up, n as int) == 0);
    }
}

/// `k * C(n, k) = n * C(n - 1, k - 1)`.
pub proof fn lemma_binomial_absorb(n: nat, k: int)
    requires
        n >= 1,
    ensures
        k * binomial(n, k) == n * binomial((n - 1) as nat, k - 1),
    decreases n,
{
    let up = (n - 1) as nat;
    if k <= 0 || k > n {
        assert(k * 0 == 0 && n * 0 == 0);
        if k == 0 {
            assert(0 * binomial(n, 0) == 0);
        }
    } else if n == 1 {
        lemma_binomial_ends(0);
        lemma_binomial_ends(1);
    } else {
        let upup = (n - 2) as nat;
        lemma_binomial_absorb(up, k);
        lemma_binomial_absorb(up, k - 1);
        let x = binomial(upup, k - 2);
        let y = binomial(upup, k - 1);
        let b1 = binomial(up, k - 1);
        let b0 = binomial(up, k);
        assert(b1 == x + y);
        assert(binomial(n, k) == b1 + b0);
        assert(k * (b1 + b0) == n * b1) by (nonlinear_arith)
            requires
                k * b0 == (n - 1) * y,
                (k - 1) * b1 == (n - 1) * x,
                b1 == x + y,
        ;
    }
}

/// A prime divides each of its binomial coefficients but the first and the
/// last.
pub proof fn lemma_prime_divides_binomial(p: nat, k: int)
    requires
        is_prime_spec(p),
        0 < k < p,
    ensures
        binomial(p, k) % (p as int) == 0,
{
    let m = p as int;
    lemma_binomial_absorb(p, k);
    lemma_mod_multiples_basic(binomial((p - 1) as nat, k - 1), m);
    assert(m * binomial((p - 1) as nat, k - 1) == binomial((p - 1) as nat, k - 1) * m)
        by (nonlinear_arith);
    lemma_prime_divides_product(k, binomial(p, k), m);
    lemma_small_mod(k as nat, p);
}

/// The term of degree `k` in the expansion of `(a + 1)^n`.
pub open spec fn binomial_term(a: int, n: nat) -> spec_fn(int) -> int {
    |k: int| binomial(n, k) * pow(a, k as nat)
}

/// The binomial theorem: `(a + 1)^n` is the sum of `C(n, k) * a^k` over `k`
/// from zero to `n`.
pub proof fn lemma_binomial_theorem(a: int, n: nat)
    ensures
        pow(a + 1, n) == sum_to(binomial_term(a, n), n + 1),
    decreases n,
{
    if n == 0 {
        lemma_pow0(a + 1);
        lemma_pow0(a);
        reveal_with_fuel(sum_to, 2);
        assert(binomial_term(a, 0)(0) == 1 * pow(a, 0));
    } else {
        let up = (n - 1) as nat;
        let lower = binomial_term(a, up);
        let upper = binomial_term(a, n);
        let shifted = |k: int| if k >= 1 { lower(k - 1) } else { 0 };
        lemma_binomial_theorem(a, up);
        assert forall|k: int| 0 <= k < n + 1 implies #[trigger] upper(k) == a * shifted(k) + 1
            * lower(k) by {
            if k >= 1 {
                lemma_pow1(a);
                lemma_pow_adds(a, (k - 1) as nat, 1);
                let x = binomial(up, k - 1);
                let y = binomial(up, k);
                let w = pow(a, (k - 1) as nat);
                assert((x + y) * (w * a) == a * (x * w) + 1 * (y * (w * a))) by (nonlinear_arith);
            } else {
                lemma_binomial_ends(n);
                lemma_binomial_ends(up);
                assert(a * 0 == 0);
            }
        }
        lemma_sum_linear(upper, shifted, lower, a, 1, n + 1);
        // the shifted terms add up to the row above
        lemma_sum_split(shifted, lower, 1, n);
        reveal_with_fuel(sum_to, 2);
        assert(sum_to(shifted, 1) == 0);
        assert(1 + n == n + 1);
        // and so do the terms of the row above, with one more that is zero
        assert(lower(n as int) == 0) by {
            assert(0 * pow(a, n) == 0);
        }
        assert(sum_to(lower, n + 1) == sum_to(lower, n) + lower(n as int));
        let s = sum_to(lower, n);
        lemma_pow1(a + 1);
        lemma_pow_adds(a + 1, up, 1);
        assert(a * s + 1 * s == s * (a + 1)) by (nonlinear_arith);
    }
}

/// Modulo a prime `p`, `(a + 1)^p` is `a^p + 1`.
pub proof fn lemma_power_of_successor(a: int, p: nat)
    requires
        is_prime_spec(p),
    ensures
        pow(a + 1, p) % (p as int) == (pow(a, p) + 1) % (p as int),
{
    let m = p as int;
    let term = binomial_term(a, p);
    let ends = |k: int|
        if k == 0 {
            1
        } else if k == p {
            pow(a, p)
        } else {
            0
        };
    lemma_binomial_theorem(a, p);
    lemma_binomial_ends(p);
    lemma_pow0(a);
    lemma_small_mod(0, p);
    assert forall|k: int| 0 <= k < p + 1 implies #[trigger] term(k) % m == ends(k) % m by {
        if 0 < k < p {
            lemma_prime_divides_binomial(p, k);
            lemma_congruent_mul(binomial(p, k), 0, pow(a, k as nat), pow(a, k as nat), m);
            assert(0 * pow(a, k as nat) == 0);
        } else if k == 0 {
            assert(1 * pow(a, 0) == 1);
        } else {
            assert(1 * pow(a, p) == pow(a, p));
        }
    }
    lemma_sum_congruent(term, ends, p + 1, m);
    lemma_sum_single(ends, p, 0);
    assert(sum_to(ends, p + 1) == sum_to(ends, p) + ends(p as int));
}

/// Modulo a prime `p`, `a^p` is `a` for every natural number `a`.
pub proof fn lemma_power_of_prime(a: nat, p: nat)
    requires
        is_prime_spec(p),
    ensures
        pow(a as int, p) % (p as int) == (a as int) % (p as int),
    decreases a,
{
    if a == 0 {
        lemma0_pow(p);
    } else {
        let m = p as int;
        lemma_power_of_prime((a - 1) as nat, p);
        lemma_power_of_successor(a - 1, p);
        lemma_congruent_add(pow(a - 1, p), a - 1, 1, 1, m);
    }
}

/// Fermat's little theorem: modulo a prime `p`, `a^(p - 1)` is one for every
/// `a` that `p` does not divide.
pub proof fn lemma_fermat(a: int, p: nat)
    requires
        is_prime_spec(p),
        a % (p as int) != 0,
    ensures
        pow(a, (p - 1) as nat) % (p as int) == 1,
{
    let m = p as int;
    let r = a % m;
    let e = (p - 1) as nat;
    lemma_mod_bound(a, m);
    lemma_power_of_prime(r as nat, p);
    lemma_pow1(r);
    lemma_pow_adds(r, 1, e);
    lemma_mod_twice(a, m);
    assert(r * 1 == r);
    lemma_cancel(r, pow(r, e), 1, m);
    lemma_small_mod(1, p);
    lemma_pow_mod_noop(a, e, m);
}

/// Modulo a prime `p`, `a^(p - 2)` is the inverse of every `a` that `p` does
/// not divide: their product is one.
pub proof fn lemma_inverse_is_inverse(a: int, p: nat)
    requires
        is_prime_spec(p),
        a % (p as int) != 0,
    ensures
        (a * inverse_spec(a, p as int)) % (p as int) == 1,
        0 < inverse_spec(a, p as int) < p,
{
    let m = p as int;
    let e = (p - 2) as nat;
    lemma_fermat(a, p);
    lemma_pow1(a);
    lemma_pow_adds(a, 1, e);
    lemma_mod_twice(pow(a, e), m);
    lemma_congruent_mul(a, a, inverse_spec(a, m), pow(a, e), m);
    lemma_mod_bound(pow(a, e), m);
    if inverse_spec(a, m) == 0 {
        assert(a * 0 == 0);
        lemma_small_mod(0, p);
    }
}

} // verus!
