//! Primality by trial division, and the search for the next prime.

use vstd::arithmetic::div_mod::{lemma_fundamental_div_mod, lemma_mod_multiples_basic};
use vstd::prelude::*;

verus! {

/// `n` is prime: at least two, and no number strictly between one and `n` divides it.
pub open spec fn is_prime_spec(n: nat) -> bool {
    n >= 2 && forall|d: nat| 2 <= d < n ==> #[trigger] (n % d) != 0
}

/// A divisor of a divisor is a divisor.
proof fn lemma_divisor_of_divisor(a: nat, d: nat, n: nat)
    requires
        a > 0,
        d > 0,
        d % a == 0,
        n % d == 0,
    ensures
        n % a == 0,
{
    let k = (d / a) as int;
    let m = (n / d) as int;
    lemma_fundamental_div_mod(d as int, a as int);
    lemma_fundamental_div_mod(n as int, d as int);
    assert(n == (k * m) * a) by (nonlinear_arith)
        requires
            d == a * k,
            n == d * m,
    ;
    lemma_mod_multiples_basic(k * m, a as int);
}

/// The quotient by a divisor is itself a divisor, and lies below any `i` whose
/// square exceeds `n` when the divisor does not.
proof fn lemma_cofactor(n: nat, d: nat, i: nat)
    requires
        2 <= d < n,
        n % d == 0,
        i <= d,
        i * i > n,
    ensures
        2 <= n / d < i,
        n % (n / d) == 0,
{
    let q = (n / d) as int;
    lemma_fundamental_div_mod(n as int, d as int);
    assert(n == d * q);
    assert(q >= 2) by (nonlinear_arith)
        requires
            n == d * q,
            2 <= d < n,
    ;
    assert(q < i) by (nonlinear_arith)
        requires
            n == d * q,
            i <= d,
            i * i > n,
            q >= 0,
    ;
    assert(n == d * q ==> n == d * q + 0);
    lemma_mod_multiples_basic(d as int, q);
}

/// Nothing in `[i, i + 6)` divides `n` when `i` is one short of a multiple of
/// six, neither `i` nor `i + 2` divides `n`, and `n` is odd and no multiple of
/// three.
proof fn lemma_wheel_step(n: nat, i: nat)
    requires
        i % 6 == 5,
        n % 2 != 0,
        n % 3 != 0,
        n % i != 0,
        n % (i + 2) != 0,
    ensures
        forall|d: nat| i <= d < i + 6 ==> #[trigger] (n % d) != 0,
{
    assert forall|d: nat| i <= d < i + 6 implies #[trigger] (n % d) != 0 by {
        if d == i + 1 || d == i + 3 || d == i + 5 {
            assert(d % 2 == 0);
            if n % d == 0 {
                lemma_divisor_of_divisor(2, d, n);
            }
        } else if d == i + 4 {
            assert(d % 3 == 0);
            if n % d == 0 {
                lemma_divisor_of_divisor(3, d, n);
            }
        }
    }
}

/// Decides primality by trial division: by two, by three, then by the numbers
/// next to the multiples of six, up to the square root.
pub fn is_prime(n: u64) -> (prime: bool)
    ensures
        prime == is_prime_spec(n as nat),
{
    if n <= 1 {
        return false;
    }
    if n <= 3 {
        return true;
    }
    if n % 2 == 0 {
        assert((n as nat) % 2nat == 0);
        return false;
    }
    if n % 3 == 0 {
        assert((n as nat) % 3nat == 0);
        return false;
    }
    proof {
        if (n as nat) % 4 == 0 {
            lemma_divisor_of_divisor(2, 4, n as nat);
        }
    }
    let mut i: u64 = 5;
    while i <= n / i
        invariant
            5 <= i,
            i % 6 == 5,
            n > 3,
            n % 2 != 0,
            n % 3 != 0,
            i <= 0x1_0000_0005,
            forall|d: nat| 2 <= d < i ==> #[trigger] ((n as nat) % d) != 0,
        decreases 0x1_0000_0010 - i,
    {
        assert(i * i <= n && i < 0x1_0000_0000) by (nonlinear_arith)
            requires
                0 < i <= n / i,
                n <= u64::MAX,
        ;
        assert(i + 2 < n) by (nonlinear_arith)
            requires
                i * i <= n,
                5 <= i,
        ;
        if n % i == 0 {
            assert((n as nat) % (i as nat) == 0);
            return false;
        }
        if n % (i + 2) == 0 {
            assert((n as nat) % ((i + 2) as nat) == 0);
            return false;
        }
        proof {
            lemma_wheel_step(n as nat, i as nat);
        }
        i += 6;
    }
    proof {
        assert(i * i > n) by (nonlinear_arith)
            requires
                i > n / i,
                i > 0,
                n >= 0,
        ;
        assert forall|d: nat| 2 <= d < n implies #[trigger] ((n as nat) % d) != 0 by {
            if d >= i && (n as nat) % d == 0 {
                lemma_cofactor(n as nat, d, i as nat);
            }
        }
    }
    true
}

/// The least prime that is at least `n`.
///
/// Some prime at or above `n` must fit in a `u64`: the search has nowhere else
/// to stop.
pub fn find_prime_above(n: u64) -> (q: u64)
    requires
        exists|r: nat| n <= r <= u64::MAX && is_prime_spec(r),
    ensures
        n <= q,
        is_prime_spec(q as nat),
        forall|m: nat| n <= m < q ==> !is_prime_spec(m),
{
    let ghost bound: nat = choose|r: nat| n <= r <= u64::MAX && is_prime_spec(r);
    let mut i: u64 = n;
    while !is_prime(i)
        invariant
            n <= i <= bound <= u64::MAX,
            is_prime_spec(bound),
            forall|m: nat| n <= m < i ==> !is_prime_spec(m),
        decreases bound - i,
    {
        i += 1;
    }
    i
}

} // verus!
