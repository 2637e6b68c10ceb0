//! The multilinear extension of a table of `2^v` values: the one polynomial of
//! degree at most one in each of `v` variables that takes the table's values
//! on the corners of the hypercube.
//!
//! The first coordinate of a point goes with the highest of the `v` bits of an
//! index: it tells the lower half of the table from the upper half.

use crate::error::SumcheckError;
use crate::field::Field;
use crate::sums::{lemma_sum_linear, lemma_sum_single, sum_to};
use vstd::arithmetic::div_mod::{
    lemma_add_mod_noop, lemma_mul_mod_noop_general, lemma_small_mod,
};
use vstd::arithmetic::power2::{
    lemma2_to64, lemma_pow2_pos, lemma_pow2_strictly_increases, lemma_pow2_unfold, pow2,
};
use vstd::prelude::*;

verus! {

/// `n` is `2^k` for some `k`.
pub open spec fn is_power_of_two(n: nat) -> bool {
    exists|k: nat| n == pow2(k)
}

/// The weight that the corner with index `w` carries at the point `e`: the
/// product, over the coordinates, of `e[i]` where the corner's bit is one and
/// of `1 - e[i]` where it is zero. `w` ranges over `[0, 2^e.len())`.
pub open spec fn weight(e: Seq<u64>, w: int) -> int
    decreases e.len(),
{
    if e.len() == 0 {
        1
    } else {
        let half = pow2((e.len() - 1) as nat) as int;
        if w < half {
            (1 - e[0]) * weight(e.drop_first(), w)
        } else {
            e[0] * weight(e.drop_first(), w - half)
        }
    }
}

/// What the corner `w` adds to the extension of `f` at `e`.
pub open spec fn mle_term(f: Seq<u64>, e: Seq<u64>) -> spec_fn(int) -> int {
    |w: int| f[w] * weight(e, w)
}

/// The extension of `f` at `e` as an integer, before any reduction: the sum
/// over all corners of the table's value times the corner's weight.
pub open spec fn mle_sum(f: Seq<u64>, e: Seq<u64>) -> int {
    sum_to(mle_term(f, e), f.len())
}

/// The extension of `f` at `e` in the integers modulo `p`.
pub open spec fn mle(f: Seq<u64>, e: Seq<u64>, p: int) -> int {
    mle_sum(f, e) % p
}

/// Powers of two do not decrease with the exponent.
pub proof fn lemma_pow2_monotone(a: nat, b: nat)
    requires
        a <= b,
    ensures
        pow2(a) <= pow2(b),
{
    if a < b {
        lemma_pow2_strictly_increases(a, b);
    }
}

/// Different exponents give different powers of two.
pub proof fn lemma_pow2_injective(a: nat, b: nat)
    requires
        pow2(a) == pow2(b),
    ensures
        a == b,
{
    if a < b {
        lemma_pow2_strictly_increases(a, b);
    } else if b < a {
        lemma_pow2_strictly_increases(b, a);
    }
}

/// Nothing strictly between two neighbouring powers of two is a power of two.
proof fn lemma_between_powers(n: nat, k: nat)
    requires
        pow2(k) < n < pow2(k + 1),
    ensures
        !is_power_of_two(n),
{
    assert forall|j: nat| n != pow2(j) by {
        if j <= k {
            lemma_pow2_monotone(j, k);
        } else {
            lemma_pow2_monotone(k + 1, j);
        }
    }
}

/// The number of variables of a table of `len` values: the `k` with
/// `len == 2^k`, if there is one.
pub fn table_dimension(len: usize) -> (dim: Option<usize>)
    ensures
        match dim {
            Some(k) => len == pow2(k as nat),
            None => !is_power_of_two(len as nat),
        },
{
    if len == 0 {
        proof {
            assert forall|j: nat| 0 != pow2(j) by {
                lemma_pow2_pos(j);
            }
        }
        return None;
    }
    let mut k: usize = 0;
    let mut m: usize = 1;
    proof {
        lemma2_to64();
    }
    while m < len
        invariant
            1 <= m,
            m == pow2(k as nat),
            k < usize::BITS,
            k == 0 || pow2((k - 1) as nat) < len,
        decreases usize::BITS - k,
    {
        proof {
            lemma_pow2_unfold((k + 1) as nat);
        }
        if m > usize::MAX / 2 {
            proof {
                lemma_between_powers(len as nat, k as nat);
            }
            return None;
        }
        proof {
            if k + 1 >= usize::BITS {
                lemma2_to64();
                lemma_pow2_monotone(usize::BITS as nat, (k + 1) as nat);
                assert(pow2(32) == 0x1_0000_0000);
                assert(pow2(64) == 0x1_0000_0000_0000_0000);
            }
        }
        m = m * 2;
        k = k + 1;
    }
    if m == len {
        Some(k)
    } else {
        proof {
            lemma_pow2_unfold(k as nat);
            lemma_between_powers(len as nat, (k - 1) as nat);
        }
        None
    }
}

/// Every coordinate of `b` is zero or one.
pub open spec fn is_corner(b: Seq<u64>) -> bool {
    forall|i: int| 0 <= i < b.len() ==> b[i] == 0 || b[i] == 1
}

/// The index of the corner `b` in a table: `b` read as a binary number, its
/// first coordinate the highest bit.
pub open spec fn corner_index(b: Seq<u64>) -> int
    decreases b.len(),
{
    if b.len() == 0 {
        0
    } else {
        b[0] * pow2((b.len() - 1) as nat) + corner_index(b.drop_first())
    }
}

/// A corner's index lies in the table.
pub proof fn lemma_corner_index_in_table(b: Seq<u64>)
    requires
        is_corner(b),
    ensures
        0 <= corner_index(b) < pow2(b.len()),
    decreases b.len(),
{
    if b.len() == 0 {
        lemma2_to64();
    } else {
        let rest = b.drop_first();
        assert(is_corner(rest)) by {
            assert forall|i: int| 0 <= i < rest.len() implies rest[i] == 0 || rest[i] == 1 by {
                assert(rest[i] == b[i + 1]);
            }
        }
        lemma_corner_index_in_table(rest);
        lemma_pow2_unfold(b.len());
        assert(b[0] == 0 || b[0] == 1);
    }
}

/// At a corner, the corner's own index has weight one and every other index
/// has weight zero.
proof fn lemma_weight_at_corner(b: Seq<u64>, w: int)
    requires
        is_corner(b),
        0 <= w < pow2(b.len()),
    ensures
        weight(b, w) == if w == corner_index(b) { 1int } else { 0int },
    decreases b.len(),
{
    if b.len() > 0 {
        let rest = b.drop_first();
        let half = pow2((b.len() - 1) as nat) as int;
        assert(is_corner(rest)) by {
            assert forall|i: int| 0 <= i < rest.len() implies rest[i] == 0 || rest[i] == 1 by {
                assert(rest[i] == b[i + 1]);
            }
        }
        lemma_pow2_unfold(b.len());
        lemma_corner_index_in_table(rest);
        assert(b[0] == 0 || b[0] == 1);
        let sub = if w < half { w } else { w - half };
        lemma_weight_at_corner(rest, sub);
        let x = weight(rest, sub);
        assert(0 * x == 0 && 1 * x == x);
        assert(0 * half == 0 && 1 * half == half);
    } else {
        lemma2_to64();
    }
}

/// On the corners of the hypercube the extension is the table: at a point
/// whose coordinates are all zero or one, the extension of `f` is the value
/// of `f` at the index that the point spells, exactly and so also modulo `p`.
pub proof fn lemma_mle_agrees_on_corners(f: Seq<u64>, b: Seq<u64>, p: int)
    requires
        is_corner(b),
        f.len() == pow2(b.len()),
    ensures
        0 <= corner_index(b) < f.len(),
        mle_sum(f, b) == f[corner_index(b)],
        mle(f, b, p) == (f[corner_index(b)] as int) % p,
{
    let k = corner_index(b);
    let term = mle_term(f, b);
    lemma_corner_index_in_table(b);
    assert forall|w: int| 0 <= w < f.len() && w != k implies #[trigger] term(w) == 0 by {
        lemma_weight_at_corner(b, w);
    }
    lemma_sum_single(term, f.len(), k);
    lemma_weight_at_corner(b, k);
}

/// The weight of any index is affine in each coordinate of the point.
proof fn lemma_weight_affine(e: Seq<u64>, i: int, t: u64, w: int)
    requires
        0 <= i < e.len(),
    ensures
        weight(e.update(i, t), w) == (1 - t) * weight(e.update(i, 0), w) + t * weight(
            e.update(i, 1),
            w,
        ),
    decreases e.len(),
{
    let half = pow2((e.len() - 1) as nat) as int;
    let et = e.update(i, t);
    let e0 = e.update(i, 0);
    let e1 = e.update(i, 1);
    let sub = if w < half { w } else { w - half };
    if i == 0 {
        let rest = e.drop_first();
        assert(et.drop_first() =~= rest);
        assert(e0.drop_first() =~= rest);
        assert(e1.drop_first() =~= rest);
        let x = weight(rest, sub);
        assert((1 - t) * x == (1 - t) * ((1 - 0) * x) + t * ((1 - 1) * x)) by (nonlinear_arith);
        assert(t * x == (1 - t) * (0 * x) + t * (1 * x)) by (nonlinear_arith);
    } else {
        let rest = e.drop_first();
        assert(et.drop_first() =~= rest.update(i - 1, t));
        assert(e0.drop_first() =~= rest.update(i - 1, 0));
        assert(e1.drop_first() =~= rest.update(i - 1, 1));
        lemma_weight_affine(rest, i - 1, t, sub);
        let xt = weight(rest.update(i - 1, t), sub);
        let x0 = weight(rest.update(i - 1, 0), sub);
        let x1 = weight(rest.update(i - 1, 1), sub);
        let c: int = if w < half { 1 - e[0] } else { e[0] as int };
        assert(c * xt == (1 - t) * (c * x0) + t * (c * x1)) by (nonlinear_arith)
            requires
                xt == (1 - t) * x0 + t * x1,
        ;
    }
}

/// With all coordinates but one held fixed, the extension is an affine
/// function of the remaining one: its value where that coordinate is `t` is
/// `(1 - t)` times its value at zero plus `t` times its value at one, exactly
/// and so also modulo `p`.
pub proof fn lemma_mle_affine(f: Seq<u64>, e: Seq<u64>, i: int, t: u64, p: int)
    requires
        0 <= i < e.len(),
    ensures
        mle_sum(f, e.update(i, t)) == (1 - t) * mle_sum(f, e.update(i, 0)) + t * mle_sum(
            f,
            e.update(i, 1),
        ),
        mle(f, e.update(i, t), p) == ((1 - t) * mle_sum(f, e.update(i, 0)) + t * mle_sum(
            f,
            e.update(i, 1),
        )) % p,
{
    let gt = mle_term(f, e.update(i, t));
    let g0 = mle_term(f, e.update(i, 0));
    let g1 = mle_term(f, e.update(i, 1));
    assert forall|w: int| 0 <= w < f.len() implies #[trigger] gt(w) == (1 - t) * g0(w) + t * g1(
        w,
    ) by {
        lemma_weight_affine(e, i, t, w);
        let xt = weight(e.update(i, t), w);
        let x0 = weight(e.update(i, 0), w);
        let x1 = weight(e.update(i, 1), w);
        let c = f[w] as int;
        assert(c * xt == (1 - t) * (c * x0) + t * (c * x1)) by (nonlinear_arith)
            requires
                xt == (1 - t) * x0 + t * x1,
        ;
    }
    lemma_sum_linear(gt, g0, g1, 1 - t, t as int, f.len());
}

/// Multiplying the running product by a factor reduced modulo `p` keeps it
/// congruent to the product with the factor itself.
proof fn lemma_weight_step(acc: int, c: int, factor: int, rest: int, p: int)
    requires
        p > 0,
        c == factor % p,
    ensures
        (((acc * c) % p) * rest) % p == (acc * (factor * rest)) % p,
{
    lemma_mul_mod_noop_general(acc * c, rest, p);
    assert((acc * c) * rest == c * (acc * rest)) by (nonlinear_arith);
    lemma_mul_mod_noop_general(factor, acc * rest, p);
    assert(factor * (acc * rest) == acc * (factor * rest)) by (nonlinear_arith);
}

/// The weight of corner `w` at `e`, reduced modulo the field's prime.
fn weight_at(field: &Field, e: &[u64], len: usize, w: usize) -> (wt: u64)
    requires
        len == pow2(e@.len()),
        w < len,
    ensures
        wt == weight(e@, w as int) % (field.modulus() as int),
{
    let p = field.modulus();
    let ghost m = p as int;
    let v = e.len();
    let mut acc: u64 = 1;
    let mut t: usize = w;
    let mut span: usize = len;
    let mut i: usize = 0;
    proof {
        assert(e@.skip(0) =~= e@);
        assert(1 * weight(e@, w as int) == weight(e@, w as int));
    }
    while i < v
        invariant
            i <= v,
            v == e@.len(),
            m == p,
            m >= 2,
            m == field.modulus(),
            span == pow2((v - i) as nat),
            t < span,
            acc < p,
            (acc * weight(e@.skip(i as int), t as int)) % m == weight(e@, w as int) % m,
        decreases v - i,
    {
        let ghost s = e@.skip(i as int);
        let ghost rest = s.drop_first();
        proof {
            lemma_pow2_unfold((v - i) as nat);
            assert(rest =~= e@.skip(i + 1));
            assert(s[0] == e@[i as int]);
        }
        let half = span / 2;
        if t < half {
            let c = field.sub(1, e[i]);
            proof {
                lemma_weight_step(
                    acc as int,
                    c as int,
                    1 - e@[i as int],
                    weight(rest, t as int),
                    m,
                );
            }
            acc = field.mul(acc, c);
        } else {
            let c = field.reduce(e[i]);
            proof {
                lemma_weight_step(
                    acc as int,
                    c as int,
                    e@[i as int] as int,
                    weight(rest, t - half),
                    m,
                );
            }
            acc = field.mul(acc, c);
            t = t - half;
        }
        span = half;
        i = i + 1;
    }
    proof {
        assert(e@.skip(v as int).len() == 0);
        assert(acc * 1 == acc);
        lemma_small_mod(acc as nat, m as nat);
    }
    acc
}

/// Evaluates the multilinear extension of the table `f` at the point `e`.
///
/// The table must hold `2^e.len()` values: a table whose length is no power
/// of two, and a point that has not as many coordinates as the table has
/// variables, are errors. The coordinates of `e`, and the values of the
/// table, may be any numbers: they stand for their residues.
pub fn mle_eval(field: &Field, f: &[u64], e: &[u64]) -> (value: Result<u64, SumcheckError>)
    ensures
        !is_power_of_two(f@.len()) ==> value == Err::<u64, SumcheckError>(
            SumcheckError::TableNotPowerOfTwo,
        ),
        is_power_of_two(f@.len()) && f@.len() != pow2(e@.len()) ==> value == Err::<
            u64,
            SumcheckError,
        >(SumcheckError::DimensionMismatch),
        f@.len() == pow2(e@.len()) ==> value == Ok::<u64, SumcheckError>(
            mle(f@, e@, field.modulus() as int) as u64,
        ),
{
    let len = f.len();
    let dim = match table_dimension(len) {
        None => {
            return Err(SumcheckError::TableNotPowerOfTwo);
        },
        Some(k) => k,
    };
    if e.len() != dim {
        proof {
            if f@.len() == pow2(e@.len()) {
                lemma_pow2_injective(e@.len(), dim as nat);
            }
        }
        return Err(SumcheckError::DimensionMismatch);
    }
    let p = field.modulus();
    let ghost m = p as int;
    let ghost term = mle_term(f@, e@);
    let mut acc: u64 = 0;
    let mut w: usize = 0;
    while w < len
        invariant
            w <= len,
            len == f@.len(),
            len == pow2(e@.len()),
            m == p,
            m >= 2,
            m == field.modulus(),
            term == mle_term(f@, e@),
            acc < p,
            acc == sum_to(term, w as nat) % m,
        decreases len - w,
    {
        let wt = weight_at(field, e, len, w);
        let part = field.mul(f[w], wt);
        proof {
            let before = sum_to(term, w as nat);
            let exact = f@[w as int] * weight(e@, w as int);
            assert(term(w as int) == exact);
            assert(sum_to(term, (w + 1) as nat) == before + exact);
            lemma_mul_mod_noop_general(f@[w as int] as int, weight(e@, w as int), m);
            assert(part == exact % m);
            lemma_add_mod_noop(before, exact, m);
            lemma_small_mod(acc as nat, m as nat);
            lemma_small_mod(part as nat, m as nat);
        }
        acc = field.add(acc, part);
        w = w + 1;
    }
    Ok(acc)
}

/// Evaluation is deterministic: whatever two calls of `mle_eval` on the same
/// field, table and point return, they return the same.
pub proof fn lemma_mle_eval_deterministic(
    field: Field,
    f: &[u64],
    e: &[u64],
    first: Result<u64, SumcheckError>,
    second: Result<u64, SumcheckError>,
)
    requires
        call_ensures(mle_eval, (&field, f, e), first),
        call_ensures(mle_eval, (&field, f, e), second),
    ensures
        first == second,
{
}

} // verus!
