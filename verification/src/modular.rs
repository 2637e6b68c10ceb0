//! Congruence modulo a positive number is kept by sums, differences and
//! products; modulo a prime, what is not zero can be cancelled.

use crate::prime::is_prime_spec;
use vstd::arithmetic::div_mod::{
    lemma_add_mod_noop, lemma_fundamental_div_mod, lemma_mod_bound, lemma_mod_multiples_vanish,
    lemma_mul_mod_noop_general, lemma_small_mod, lemma_sub_mod_noop,
};
use vstd::prelude::*;

verus! {

/// Congruent summands give congruent sums.
pub proof fn lemma_congruent_add(a: int, a2: int, b: int, b2: int, p: int)
    requires
        p > 0,
        a % p == a2 % p,
        b % p == b2 % p,
    ensures
        (a + b) % p == (a2 + b2) % p,
{
    lemma_add_mod_noop(a, b, p);
    lemma_add_mod_noop(a2, b2, p);
}

/// Congruent operands give congruent differences.
pub proof fn lemma_congruent_sub(a: int, a2: int, b: int, b2: int, p: int)
    requires
        p > 0,
        a % p == a2 % p,
        b % p == b2 % p,
    ensures
        (a - b) % p == (a2 - b2) % p,
{
    lemma_sub_mod_noop(a, b, p);
    lemma_sub_mod_noop(a2, b2, p);
}

/// Congruent factors give congruent products.
pub proof fn lemma_congruent_mul(a: int, a2: int, b: int, b2: int, p: int)
    requires
        p > 0,
        a % p == a2 % p,
        b % p == b2 % p,
    ensures
        (a * b) % p == (a2 * b2) % p,
{
    lemma_mul_mod_noop_general(a, b, p);
    lemma_mul_mod_noop_general(a2, b2, p);
}

/// The line through `(0, a)` and `(1, b)`, taken at `r`, keeps its residue
/// when `a` and `b` are replaced by numbers congruent to them.
pub proof fn lemma_congruent_line(a: int, a2: int, b: int, b2: int, r: int, p: int)
    requires
        p > 0,
        a % p == a2 % p,
        b % p == b2 % p,
    ensures
        (a + r * (b - a)) % p == (a2 + r * (b2 - a2)) % p,
{
    lemma_congruent_sub(b, b2, a, a2, p);
    lemma_congruent_mul(r, r, b - a, b2 - a2, p);
    lemma_congruent_add(a, a2, r * (b - a), r * (b2 - a2), p);
}

/// Modulo a prime, every number strictly between zero and the prime has an
/// inverse: the lemma returns one.
pub proof fn lemma_inverse_exists(a: int, p: int) -> (x: int)
    requires
        p > 0,
        is_prime_spec(p as nat),
        0 < a < p,
    ensures
        0 < x < p,
        (a * x) % p == 1,
    decreases a,
{
    if a == 1 {
        lemma_small_mod(1, p as nat);
        1
    } else {
        let q = p / a;
        let r = p % a;
        lemma_fundamental_div_mod(p, a);
        lemma_mod_bound(p, a);
        assert(r != 0) by {
            assert((p as nat) % (a as nat) != 0);
        }
        let y = lemma_inverse_exists(r, p);
        let x = (-(q * y)) % p;
        lemma_mod_bound(-(q * y), p);
        // a * (-(q * y)) = r * y - p * y
        assert(a * (-(q * y)) == p * (-y) + r * y) by (nonlinear_arith)
            requires
                p == a * q + r,
        ;
        lemma_mod_multiples_vanish(-y, r * y, p);
        lemma_mul_mod_noop_general(a, -(q * y), p);
        assert((a * x) % p == 1);
        if x == 0 {
            assert(a * x == 0);
            lemma_small_mod(0, p as nat);
        }
        x
    }
}

/// Modulo a prime, a factor that is not zero can be cancelled.
pub proof fn lemma_cancel(a: int, b: int, c: int, p: int)
    requires
        p > 0,
        is_prime_spec(p as nat),
        a % p != 0,
        (a * b) % p == (a * c) % p,
    ensures
        b % p == c % p,
{
    let r = a % p;
    lemma_mod_bound(a, p);
    let x = lemma_inverse_exists(r, p);
    // x * a is congruent to one
    lemma_mul_mod_noop_general(x, a, p);
    assert((x * a) % p == 1) by {
        assert(x * r == r * x) by (nonlinear_arith);
    }
    lemma_small_mod(1, p as nat);
    lemma_congruent_mul(x, x, a * b, a * c, p);
    assert(x * (a * b) == (x * a) * b) by (nonlinear_arith);
    assert(x * (a * c) == (x * a) * c) by (nonlinear_arith);
    lemma_congruent_mul(x * a, 1, b, b, p);
    lemma_congruent_mul(x * a, 1, c, c, p);
    assert(1 * b == b && 1 * c == c);
}

/// A prime that divides a product divides one of the factors.
pub proof fn lemma_prime_divides_product(a: int, b: int, p: int)
    requires
        p > 0,
        is_prime_spec(p as nat),
        (a * b) % p == 0,
    ensures
        a % p == 0 || b % p == 0,
{
    if a % p != 0 {
        assert(a * 0 == 0);
        lemma_small_mod(0, p as nat);
        lemma_cancel(a, b, 0, p);
    }
}

} // verus!
