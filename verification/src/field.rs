//! Arithmetic modulo a prime chosen when the field is made.
//!
//! Operands are any `u64`; each operation answers with the representative in
//! `[0, p)` of the exact integer result. Products are formed in `u128`, so no
//! modulus that fits a `u64` is too large.

use crate::error::SumcheckError;
use crate::fermat::lemma_inverse_is_inverse;
use crate::prime::{is_prime, is_prime_spec};
use vstd::arithmetic::div_mod::{
    lemma_mod_multiples_vanish, lemma_mul_mod_noop_general,
    lemma_small_mod, lemma_sub_mod_noop,
};
use vstd::arithmetic::power::{
    lemma_pow0, lemma_pow1, lemma_pow_adds, lemma_pow_mod_noop, lemma_pow_multiplies,
    lemma_square_is_pow2, pow,
};
use vstd::calc;
use vstd::prelude::*;

verus! {

/// The integers modulo a prime.
#[derive(Clone, Copy, Debug)]
pub struct Field {
    p: u64,
}

/// What `Field::inverse` computes for `a` modulo `p`: by Fermat's little
/// theorem, `a^(p - 2)`.
pub open spec fn inverse_spec(a: int, p: int) -> int {
    pow(a, (p - 2) as nat) % p
}

/// One step of the binary scan: the low bit of the exponent is folded into the
/// accumulator, the base is squared and the exponent halved, and the product
/// `acc * base^exp` keeps its residue.
proof fn lemma_pow_scan_step(acc: int, base: int, exp: nat, p: int)
    requires
        p > 0,
        exp > 0,
    ensures
        ({
            let acc2 = if exp % 2 == 1 { (acc * base) % p } else { acc };
            (acc2 * pow((base * base) % p, exp / 2)) % p == (acc * pow(base, exp)) % p
        }),
{
    let half = exp / 2;
    let sq = base * base;
    // base^(2 * half) == (base * base)^half
    lemma_square_is_pow2(base);
    lemma_pow_multiplies(base, 2, half);
    assert(pow(sq, half) == pow(base, 2 * half));
    let tail = pow(sq, half);
    lemma_pow_mod_noop(sq, half, p);
    let tail_r = pow(sq % p, half);
    assert(tail_r % p == tail % p);
    if exp % 2 == 1 {
        lemma_pow1(base);
        lemma_pow_adds(base, 1, 2 * half);
        assert(pow(base, exp) == base * tail);
        let acc2 = (acc * base) % p;
        calc! {
            (==)
            (acc2 * tail_r) % p; {
                lemma_mul_mod_noop_general(acc2, tail_r, p);
            }
            (acc2 * (tail_r % p)) % p; {}
            (acc2 * (tail % p)) % p; {
                lemma_mul_mod_noop_general(acc2, tail, p);
            }
            (acc2 * tail) % p; {
                lemma_mul_mod_noop_general(acc * base, tail, p);
            }
            ((acc * base) * tail) % p; {
                assert((acc * base) * tail == acc * (base * tail)) by (nonlinear_arith);
            }
            (acc * (base * tail)) % p;
        }
    } else {
        assert(exp == 2 * half);
        calc! {
            (==)
            (acc * tail_r) % p; {
                lemma_mul_mod_noop_general(acc, tail_r, p);
            }
            (acc * (tail_r % p)) % p; {}
            (acc * (tail % p)) % p; {
                lemma_mul_mod_noop_general(acc, tail, p);
            }
            (acc * tail) % p;
        }
    }
}

impl Field {
    #[verifier::type_invariant]
    spec fn wf(&self) -> bool {
        is_prime_spec(self.p as nat)
    }

    /// The modulus, as contracts speak of it.
    pub closed spec fn spec_modulus(&self) -> u64 {
        self.p
    }

    /// Makes the field of integers modulo `p`, where `p` is prime.
    pub fn new(p: u64) -> (made: Result<Field, SumcheckError>)
        ensures
            is_prime_spec(p as nat) ==> made.is_ok() && made.unwrap().modulus() == p,
            !is_prime_spec(p as nat) ==> made == Err::<Field, SumcheckError>(
                SumcheckError::ModulusNotPrime,
            ),
    {
        if is_prime(p) {
            Ok(Field { p })
        } else {
            Err(SumcheckError::ModulusNotPrime)
        }
    }

    /// The modulus.
    #[verifier::when_used_as_spec(spec_modulus)]
    pub fn modulus(&self) -> (p: u64)
        ensures
            p == self.modulus(),
            is_prime_spec(p as nat),
    {
        proof {
            use_type_invariant(self);
        }
        self.p
    }

    /// The representative of `a` in `[0, p)`.
    pub fn reduce(&self, a: u64) -> (r: u64)
        ensures
            r == a % self.modulus(),
            r < self.modulus(),
    {
        proof {
            use_type_invariant(self);
        }
        a % self.p
    }

    /// `a + b` modulo `p`.
    pub fn add(&self, a: u64, b: u64) -> (r: u64)
        ensures
            r == (a + b) % (self.modulus() as int),
            r < self.modulus(),
    {
        proof {
            use_type_invariant(self);
        }
        let s: u128 = (a as u128 + b as u128) % (self.p as u128);
        s as u64
    }

    /// `a - b` modulo `p`: the representative in `[0, p)`, also where `a < b`.
    pub fn sub(&self, a: u64, b: u64) -> (r: u64)
        ensures
            r == (a - b) % (self.modulus() as int),
            r < self.modulus(),
    {
        proof {
            use_type_invariant(self);
        }
        let p: u128 = self.p as u128;
        let x: u128 = (a % self.p) as u128;
        let y: u128 = (b % self.p) as u128;
        let s: u128 = (x + p - y) % p;
        proof {
            let m = self.p as int;
            lemma_sub_mod_noop(a as int, b as int, m);
            lemma_mod_multiples_vanish(1, x - y, m);
        }
        s as u64
    }

    /// `a * b` modulo `p`.
    pub fn mul(&self, a: u64, b: u64) -> (r: u64)
        ensures
            r == (a * b) % (self.modulus() as int),
            r < self.modulus(),
    {
        proof {
            use_type_invariant(self);
            assert(a * b <= u64::MAX * u64::MAX) by (nonlinear_arith)
                requires
                    a <= u64::MAX,
                    b <= u64::MAX,
            ;
        }
        let s: u128 = (a as u128 * b as u128) % (self.p as u128);
        s as u64
    }

    /// `base` to the power `exponent`, modulo `p`, with `0^0 = 1`: the
    /// exponent's bits are scanned from the lowest, squaring the base at each.
    pub fn pow(&self, base: u64, exponent: u64) -> (r: u64)
        ensures
            r == pow(base as int, exponent as nat) % (self.modulus() as int),
            r < self.modulus(),
    {
        proof {
            use_type_invariant(self);
        }
        let ghost m = self.p as int;
        let mut acc: u64 = 1;
        let mut b: u64 = base % self.p;
        let mut e: u64 = exponent;
        proof {
            lemma_pow_mod_noop(base as int, exponent as nat, m);
            assert(1 * pow(b as int, e as nat) == pow(b as int, e as nat));
        }
        while e > 0
            invariant
                m == self.p,
                m >= 2,
                acc < self.p,
                b < self.p,
                (acc * pow(b as int, e as nat)) % m == pow(base as int, exponent as nat) % m,
            decreases e,
        {
            proof {
                lemma_pow_scan_step(acc as int, b as int, e as nat, m);
                assert(e & 1 == e % 2) by (bit_vector);
                assert(e >> 1 == e / 2) by (bit_vector);
            }
            if e & 1 == 1 {
                acc = self.mul(acc, b);
            }
            b = self.mul(b, b);
            e = e >> 1;
        }
        proof {
            lemma_pow0(b as int);
            assert(acc * 1 == acc);
            lemma_small_mod(acc as nat, m as nat);
        }
        acc
    }

    /// The multiplicative inverse of `a`, computed as `a^(p - 2)`: the one
    /// number below `p` whose product with `a` is one modulo `p`.
    ///
    /// Zero has none.
    pub fn inverse(&self, a: u64) -> (inv: Result<u64, SumcheckError>)
        ensures
            a % self.modulus() == 0 ==> inv == Err::<u64, SumcheckError>(
                SumcheckError::DivisionByZero,
            ),
            a % self.modulus() != 0 ==> inv == Ok::<u64, SumcheckError>(
                inverse_spec(a as int, self.modulus() as int) as u64,
            ),
            inv matches Ok(x) ==> x < self.modulus() && (a * x) % (self.modulus() as int) == 1,
    {
        proof {
            use_type_invariant(self);
        }
        if a % self.p == 0 {
            Err(SumcheckError::DivisionByZero)
        } else {
            proof {
                lemma_inverse_is_inverse(a as int, self.p as nat);
            }
            Ok(self.pow(a, self.p - 2))
        }
    }
}

/// Field arithmetic is deterministic: whatever two calls of one operation on
/// the same field and the same operands return, they return the same.
pub proof fn lemma_field_deterministic(field: Field, a: u64, b: u64)
    ensures
        forall|x: u64, y: u64|
            call_ensures(Field::reduce, (&field, a), x) && call_ensures(
                Field::reduce,
                (&field, a),
                y,
            ) ==> x == y,
        forall|x: u64, y: u64|
            call_ensures(Field::add, (&field, a, b), x) && call_ensures(
                Field::add,
                (&field, a, b),
                y,
            ) ==> x == y,
        forall|x: u64, y: u64|
            call_ensures(Field::sub, (&field, a, b), x) && call_ensures(
                Field::sub,
                (&field, a, b),
                y,
            ) ==> x == y,
        forall|x: u64, y: u64|
            call_ensures(Field::mul, (&field, a, b), x) && call_ensures(
                Field::mul,
                (&field, a, b),
                y,
            ) ==> x == y,
        forall|x: u64, y: u64|
            call_ensures(Field::pow, (&field, a, b), x) && call_ensures(
                Field::pow,
                (&field, a, b),
                y,
            ) ==> x == y,
        forall|x: Result<u64, SumcheckError>, y: Result<u64, SumcheckError>|
            call_ensures(Field::inverse, (&field, a), x) && call_ensures(
                Field::inverse,
                (&field, a),
                y,
            ) ==> x == y,
{
}

} // verus!
