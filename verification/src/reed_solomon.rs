//! A message read as the coefficients of a polynomial, and encoded as the
//! polynomial's values at `0, 1, 2, ...`.

use crate::field::Field;
use crate::modular::{lemma_congruent_add, lemma_congruent_mul};
use crate::sums::sum_to;
use vstd::arithmetic::div_mod::{lemma_mod_twice, lemma_small_mod};
use vstd::arithmetic::power::{lemma_pow0, lemma_pow1, lemma_pow_adds, pow};
use vstd::prelude::*;

verus! {

/// The term of degree `i` of the polynomial with coefficients `coefs`, at `x`.
pub open spec fn poly_term(coefs: Seq<u64>, x: int) -> spec_fn(int) -> int {
    |i: int| coefs[i] * pow(x, i as nat)
}

/// The polynomial `coefs[0] + coefs[1] * x + coefs[2] * x^2 + ...` at `x`, as
/// an integer.
pub open spec fn poly_eval(coefs: Seq<u64>, x: int) -> int {
    sum_to(poly_term(coefs, x), coefs.len())
}

/// Evaluates the polynomial with coefficients `coefs`, lowest degree first,
/// at the point `x`.
pub fn eval(field: &Field, coefs: &[u64], x: u64) -> (y: u64)
    ensures
        y == poly_eval(coefs@, x as int) % (field.modulus() as int),
        y < field.modulus(),
{
    let p = field.modulus();
    let ghost m = p as int;
    let ghost term = poly_term(coefs@, x as int);
    let mut sum: u64 = 0;
    let mut power: u64 = 1;
    let mut i: usize = 0;
    proof {
        lemma_pow0(x as int);
        lemma_small_mod(1, m as nat);
        lemma_small_mod(0, m as nat);
    }
    while i < coefs.len()
        invariant
            i <= coefs@.len(),
            m == p,
            m >= 2,
            m == field.modulus(),
            term == poly_term(coefs@, x as int),
            sum < p,
            power < p,
            sum == sum_to(term, i as nat) % m,
            power == pow(x as int, i as nat) % m,
        decreases coefs@.len() - i,
    {
        let value = coefs[i];
        let part = field.mul(value, power);
        proof {
            let exact = pow(x as int, i as nat);
            lemma_small_mod(power as nat, m as nat);
            lemma_congruent_mul(value as int, value as int, power as int, exact, m);
            assert(term(i as int) == value * exact);
            lemma_small_mod(sum as nat, m as nat);
            lemma_mod_twice(value * power, m);
            lemma_congruent_add(sum as int, sum_to(term, i as nat), part as int, value * exact, m);
            // x^(i + 1) = x^i * x
            lemma_pow1(x as int);
            lemma_pow_adds(x as int, i as nat, 1);
            lemma_congruent_mul(power as int, exact, x as int, x as int, m);
        }
        sum = field.add(sum, part);
        // the running power of x
        power = field.mul(power, x);
        i = i + 1;
    }
    sum
}

/// The values of the polynomial with coefficients `coefs` at the points
/// `0, 1, ..., k - 1`.
pub fn encode(field: &Field, coefs: &[u64], k: u32) -> (encoded: Vec<u64>)
    ensures
        encoded@.len() == k,
        forall|i: int|
            0 <= i < k ==> #[trigger] encoded@[i] == poly_eval(coefs@, i) % (
            field.modulus() as int),
{
    let mut encoded: Vec<u64> = Vec::with_capacity(k as usize);
    let mut i: u32 = 0;
    while i < k
        invariant
            i <= k,
            encoded@.len() == i,
            forall|j: int|
                0 <= j < i ==> #[trigger] encoded@[j] == poly_eval(coefs@, j) % (
                field.modulus() as int),
        decreases k - i,
    {
        let y = eval(field, coefs, i as u64);
        encoded.push(y);
        i = i + 1;
    }
    encoded
}

} // verus!
