//! Low-degree extension: the values at `0, 1, ..., n - 1` are taken as those
//! of a polynomial of degree below `n`, which is then read off at further
//! points by Lagrange's formula.

use crate::error::SumcheckError;
use crate::fermat::lemma_inverse_is_inverse;
use crate::field::{inverse_spec, Field};
use crate::modular::{lemma_congruent_add, lemma_congruent_mul, lemma_prime_divides_product};
use crate::prime::is_prime_spec;
use crate::sums::{lemma_sum_congruent, lemma_sum_single, sum_to};
use vstd::arithmetic::div_mod::{
    lemma_mod_bound, lemma_mod_multiples_vanish, lemma_mod_self_0, lemma_mod_twice,
    lemma_small_mod,
};
use vstd::arithmetic::power::lemma_pow_mod_noop;
use vstd::prelude::*;

verus! {

/// The product of `x - j` over the `j` below `n` other than `i`.
pub open spec fn basis_numerator(n: nat, i: int, x: int) -> int
    decreases n,
{
    if n == 0 {
        1
    } else if n - 1 == i {
        basis_numerator((n - 1) as nat, i, x)
    } else {
        basis_numerator((n - 1) as nat, i, x) * (x - (n - 1))
    }
}

/// The product of `i - j` over the `j` below `n` other than `i`.
pub open spec fn basis_denominator(n: nat, i: int) -> int {
    basis_numerator(n, i, i)
}

/// The share of the `i`-th value in the interpolated value at `x`.
pub open spec fn lagrange_term(y: Seq<u64>, x: int, p: int) -> spec_fn(int) -> int {
    |i: int|
        y[i] * basis_numerator(y.len(), i, x) * inverse_spec(basis_denominator(y.len(), i), p)
}

/// Lagrange's formula modulo `p`: the value at `x` of the polynomial that
/// takes the value `y[i]` at each `i` below `y.len()`.
pub open spec fn lagrange_value(y: Seq<u64>, x: int, p: int) -> int {
    sum_to(lagrange_term(y, x, p), y.len()) % p
}

/// No denominator of Lagrange's formula for `n` points vanishes modulo `p`.
pub open spec fn interpolable(n: nat, p: int) -> bool {
    forall|i: int| 0 <= i < n ==> #[trigger] basis_denominator(n, i) % p != 0
}

/// Below a prime `p`, the difference of two different numbers is not zero
/// modulo `p`.
proof fn lemma_difference_nonzero(i: int, j: int, p: int)
    requires
        p > 0,
        0 <= i < p,
        0 <= j < p,
        i != j,
    ensures
        (i - j) % p != 0,
{
    if i > j {
        lemma_small_mod((i - j) as nat, p as nat);
    } else {
        lemma_mod_multiples_vanish(1, i - j, p);
        lemma_small_mod((p + (i - j)) as nat, p as nat);
    }
}

/// With at most `p` points, no product of differences vanishes modulo the
/// prime `p`.
proof fn lemma_denominator_nonzero(n: nat, i: int, k: nat, p: int)
    requires
        p > 0,
        is_prime_spec(p as nat),
        n <= p,
        0 <= i < n,
        k <= n,
    ensures
        basis_numerator(k, i, i) % p != 0,
    decreases k,
{
    if k == 0 {
        lemma_small_mod(1, p as nat);
    } else {
        let j = k - 1;
        lemma_denominator_nonzero(n, i, j as nat, p);
        if j != i {
            lemma_difference_nonzero(i, j, p);
            if basis_numerator(k, i, i) % p == 0 {
                lemma_prime_divides_product(basis_numerator(j as nat, i, i), i - j, p);
            }
        }
    }
}

/// Once the point `0` is among those of the product, the product at `x` is a
/// multiple of `x`.
proof fn lemma_numerator_multiple(k: nat, i: int, x: int, p: int)
    requires
        p > 0,
        k >= 1,
        i != 0,
        x % p == 0,
    ensures
        basis_numerator(k, i, x) % p == 0,
    decreases k,
{
    lemma_small_mod(0, p as nat);
    if k == 1 {
        assert(basis_numerator(0, i, x) == 1);
        assert(1 * (x - 0) == x);
    } else {
        let j = k - 1;
        lemma_numerator_multiple(j as nat, i, x, p);
        if j != i {
            lemma_congruent_mul(basis_numerator(j as nat, i, x), 0, x - j, x - j, p);
            assert(0 * (x - j) == 0);
        }
    }
}

/// Lagrange's formula can be used exactly where there are no more points than
/// the field has elements.
pub proof fn lemma_interpolable(n: nat, p: int)
    requires
        p > 0,
        is_prime_spec(p as nat),
    ensures
        interpolable(n, p) <==> n <= p,
{
    if n <= p {
        assert forall|i: int| 0 <= i < n implies #[trigger] basis_denominator(n, i) % p != 0 by {
            lemma_denominator_nonzero(n, i, n, p);
        }
    } else {
        lemma_mod_self_0(p);
        lemma_numerator_multiple(n, p, p, p);
        assert(basis_denominator(n, p) % p == 0);
    }
}

/// At a point `x` below `m` that is not `i`, the product over the points
/// below `m` other than `i` has the factor `x - x`.
proof fn lemma_numerator_vanishes(m: nat, i: int, x: int)
    requires
        0 <= x < m,
        x != i,
    ensures
        basis_numerator(m, i, x) == 0,
    decreases m,
{
    let j = m - 1;
    if j == x {
        assert(basis_numerator(j as nat, i, x) * 0 == 0);
    } else {
        lemma_numerator_vanishes(j as nat, i, x);
        assert(0 * (x - j) == 0);
    }
}

/// The interpolated values at the given points are the given values: with no
/// more points than the prime `p`, Lagrange's formula at `i` gives `y[i]`
/// modulo `p`.
pub proof fn lemma_interpolation_at_node(y: Seq<u64>, i: int, p: int)
    requires
        p > 0,
        is_prime_spec(p as nat),
        y.len() <= p,
        0 <= i < y.len(),
    ensures
        lagrange_value(y, i, p) == (y[i] as int) % p,
{
    let n = y.len();
    let term = lagrange_term(y, i, p);
    let only = |k: int| if k == i { y[i] as int } else { 0 };
    let den = basis_denominator(n, i);
    lemma_denominator_nonzero(n, i, n, p);
    lemma_inverse_is_inverse(den, p as nat);
    assert forall|k: int| 0 <= k < n implies #[trigger] term(k) % p == only(k) % p by {
        let inv = inverse_spec(basis_denominator(n, k), p);
        if k == i {
            lemma_small_mod(1, p as nat);
            lemma_congruent_mul(y[i] as int, y[i] as int, den * inv, 1, p);
            assert(y[i] * den * inv == y[i] * (den * inv)) by (nonlinear_arith);
            assert(y[i] * 1 == y[i]);
        } else {
            lemma_numerator_vanishes(n, k, i);
            assert(y[k] * 0 * inv == 0) by (nonlinear_arith);
        }
    }
    lemma_sum_congruent(term, only, n, p);
    lemma_sum_single(only, n, i);
}

/// The numerator at `x` and the denominator of the `i`-th basis polynomial
/// for `n` points, both reduced.
fn basis(field: &Field, n: usize, i: usize, x: u64) -> (nd: (u64, u64))
    requires
        i < n,
    ensures
        nd.0 == basis_numerator(n as nat, i as int, x as int) % (field.modulus() as int),
        nd.1 == basis_denominator(n as nat, i as int) % (field.modulus() as int),
{
    let p = field.modulus();
    let ghost m = p as int;
    let mut numerator: u64 = 1;
    let mut denominator: u64 = 1;
    let mut j: usize = 0;
    proof {
        lemma_small_mod(1, m as nat);
    }
    while j < n
        invariant
            j <= n,
            m == p,
            m >= 2,
            m == field.modulus(),
            numerator < p,
            denominator < p,
            numerator == basis_numerator(j as nat, i as int, x as int) % m,
            denominator == basis_numerator(j as nat, i as int, i as int) % m,
        decreases n - j,
    {
        if i != j {
            let a = field.sub(x, j as u64);
            let b = field.sub(i as u64, j as u64);
            proof {
                lemma_small_mod(numerator as nat, m as nat);
                lemma_small_mod(denominator as nat, m as nat);
                lemma_mod_twice(x - j, m);
                lemma_mod_twice(i - j, m);
                lemma_congruent_mul(
                    numerator as int,
                    basis_numerator(j as nat, i as int, x as int),
                    a as int,
                    x - j,
                    m,
                );
                lemma_congruent_mul(
                    denominator as int,
                    basis_numerator(j as nat, i as int, i as int),
                    b as int,
                    i - j,
                    m,
                );
            }
            numerator = field.mul(numerator, a);
            denominator = field.mul(denominator, b);
        }
        j = j + 1;
    }
    (numerator, denominator)
}

/// The value at `x` of the polynomial of degree below `y_values.len()` that
/// takes the value `y_values[i]` at each `i`.
///
/// With more points than the field has elements a denominator vanishes, and
/// has no inverse. At one of the given points the value is the given one.
pub fn lagrange_interpolate(field: &Field, y_values: &[u64], x: u64) -> (value: Result<
    u64,
    SumcheckError,
>)
    ensures
        y_values@.len() > field.modulus() ==> value == Err::<u64, SumcheckError>(
            SumcheckError::DivisionByZero,
        ),
        y_values@.len() <= field.modulus() ==> value == Ok::<u64, SumcheckError>(
            lagrange_value(y_values@, x as int, field.modulus() as int) as u64,
        ),
        y_values@.len() <= field.modulus() && x < y_values@.len() ==> value == Ok::<
            u64,
            SumcheckError,
        >((y_values@[x as int] % field.modulus()) as u64),
{
    let p = field.modulus();
    let ghost m = p as int;
    let n = y_values.len();
    proof {
        lemma_interpolable(n as nat, m);
        if n <= p && x < n {
            lemma_interpolation_at_node(y_values@, x as int, m);
        }
    }
    let ghost term = lagrange_term(y_values@, x as int, m);
    let mut result: u64 = 0;
    let mut i: usize = 0;
    proof {
        lemma_small_mod(0, m as nat);
    }
    while i < n
        invariant
            i <= n,
            n == y_values@.len(),
            m == p,
            m >= 2,
            m == field.modulus(),
            term == lagrange_term(y_values@, x as int, m),
            interpolable(n as nat, m) <==> n <= m,
            n <= m && x < n ==> lagrange_value(y_values@, x as int, m) == (y_values@[x as int]
                as int) % m,
            result < p,
            result == sum_to(term, i as nat) % m,
            forall|k: int| 0 <= k < i ==> #[trigger] basis_denominator(n as nat, k) % m != 0,
        decreases n - i,
    {
        let (numerator, denominator) = basis(field, n, i, x);
        let ghost num = basis_numerator(n as nat, i as int, x as int);
        let ghost den = basis_denominator(n as nat, i as int);
        proof {
            lemma_small_mod(denominator as nat, m as nat);
        }
        let inv = match field.inverse(denominator) {
            Err(e) => {
                return Err(e);
            },
            Ok(inv) => inv,
        };
        let scaled = field.mul(y_values[i], numerator);
        let part = field.mul(scaled, inv);
        proof {
            let y = y_values@[i as int] as int;
            lemma_pow_mod_noop(den, (m - 2) as nat, m);
            assert(inv == inverse_spec(den, m));
            lemma_mod_twice(num, m);
            lemma_congruent_mul(y, y, numerator as int, num, m);
            lemma_mod_twice(y * numerator, m);
            lemma_congruent_mul(scaled as int, y * num, inv as int, inv as int, m);
            assert(term(i as int) == y * num * inv);
            lemma_mod_twice(scaled * inv, m);
            lemma_small_mod(result as nat, m as nat);
            lemma_congruent_add(
                result as int,
                sum_to(term, i as nat),
                part as int,
                y * num * inv,
                m,
            );
        }
        result = field.add(result, part);
        i = i + 1;
    }
    Ok(result)
}

/// Extends `points` to `k` values: the given ones as they are, and after them
/// the values at `points.len(), ..., k - 1` of the polynomial through them.
///
/// Where anything is to be added, there must be no more points than the field
/// has elements.
pub fn extend(field: &Field, points: &[u64], k: usize) -> (extended: Result<
    Vec<u64>,
    SumcheckError,
>)
    requires
        points@.len() <= k,
    ensures
        points@.len() < k && points@.len() > field.modulus() ==> extended == Err::<
            Vec<u64>,
            SumcheckError,
        >(SumcheckError::DivisionByZero),
        points@.len() == k || points@.len() <= field.modulus() ==> {
            &&& extended matches Ok(values)
            &&& extended->Ok_0@.len() == k
            &&& extended->Ok_0@.take(points@.len() as int) == points@
            &&& forall|i: int|
                points@.len() <= i < k ==> #[trigger] extended->Ok_0@[i] == lagrange_value(
                    points@,
                    i,
                    field.modulus() as int,
                )
        },
{
    let n = points.len();
    let p = field.modulus();
    let ghost m = p as int;
    let mut encoded: Vec<u64> = Vec::with_capacity(k);
    encoded.extend_from_slice(points);
    proof {
        assert(encoded@ =~= points@);
    }
    let mut i: usize = n;
    while i < k
        invariant
            n <= i <= k,
            n == points@.len(),
            m == field.modulus(),
            2 <= m <= u64::MAX,
            encoded@.len() == i,
            encoded@.take(n as int) == points@,
            n < i ==> n <= m,
            forall|j: int| n <= j < i ==> #[trigger] encoded@[j] == lagrange_value(points@, j, m),
        decreases k - i,
    {
        let y = match lagrange_interpolate(field, points, i as u64) {
            Err(e) => {
                return Err(e);
            },
            Ok(y) => y,
        };
        proof {
            assert(lagrange_value(points@, i as int, m) == y) by {
                field_value_fits(sum_to(lagrange_term(points@, i as int, m), n as nat), m);
            }
            assert(encoded@.push(y).take(n as int) =~= encoded@.take(n as int));
        }
        encoded.push(y);
        i = i + 1;
    }
    Ok(encoded)
}

/// A residue modulo a `u64` is a `u64`.
proof fn field_value_fits(a: int, p: int)
    requires
        0 < p <= u64::MAX,
    ensures
        0 <= a % p <= u64::MAX,
{
    lemma_mod_bound(a, p);
}

} // verus!
