//! Matrices over the field, as rows of numbers: random ones, and the product
//! that a randomised check of a claimed product is built on.

use crate::field::Field;
use crate::modular::lemma_congruent_add;
use crate::random::random_below;
use crate::sums::sum_to;
use vstd::arithmetic::div_mod::{lemma_mod_twice, lemma_small_mod};
use vstd::prelude::*;

verus! {

/// A matrix has at least one row, and all its rows have the same length.
pub open spec fn rectangular(a: Seq<Vec<u64>>) -> bool {
    a.len() > 0 && forall|i: int| 0 <= i < a.len() ==> (#[trigger] a[i])@.len() == a[0]@.len()
}

/// The `k`-th product that goes into entry `(i, j)` of the product of `a` and
/// `b`.
pub open spec fn dot_term(a: Seq<Vec<u64>>, b: Seq<Vec<u64>>, i: int, j: int) -> spec_fn(
    int,
) -> int {
    |k: int| a[k]@[j] * b[i]@[k]
}

/// Entry `(i, j)` of the product, as an integer: the sum over `k` of
/// `a[k][j] * b[i][k]`.
pub open spec fn dot(a: Seq<Vec<u64>>, b: Seq<Vec<u64>>, i: int, j: int) -> int {
    sum_to(dot_term(a, b, i, j), a.len())
}

/// A random element of the field.
pub fn random_int(field: &Field) -> (r: u64)
    ensures
        r < field.modulus(),
{
    random_below(field.modulus())
}

/// `n` random elements of the field.
pub fn random_vector(field: &Field, n: usize) -> (v: Vec<u64>)
    ensures
        v@.len() == n,
        forall|i: int| 0 <= i < n ==> #[trigger] v@[i] < field.modulus(),
{
    let mut v: Vec<u64> = Vec::new();
    let mut i: usize = 0;
    while i < n
        invariant
            i <= n,
            v@.len() == i,
            forall|k: int| 0 <= k < i ==> #[trigger] v@[k] < field.modulus(),
        decreases n - i,
    {
        let r = random_int(field);
        v.push(r);
        i = i + 1;
    }
    v
}

/// `n` rows of `m` random elements of the field.
pub fn random_matrix(field: &Field, n: usize, m: usize) -> (a: Vec<Vec<u64>>)
    ensures
        a@.len() == n,
        forall|i: int| 0 <= i < n ==> (#[trigger] a@[i])@.len() == m,
        forall|i: int, j: int| 0 <= i < n && 0 <= j < m ==> #[trigger] a@[i]@[j] < field.modulus(),
{
    let mut a: Vec<Vec<u64>> = Vec::new();
    let mut i: usize = 0;
    while i < n
        invariant
            i <= n,
            a@.len() == i,
            forall|k: int| 0 <= k < i ==> (#[trigger] a@[k])@.len() == m,
            forall|k: int, j: int|
                0 <= k < i && 0 <= j < m ==> #[trigger] a@[k]@[j] < field.modulus(),
        decreases n - i,
    {
        let row = random_vector(field, m);
        a.push(row);
        i = i + 1;
    }
    a
}

/// Whether `a` has a row and all its rows have the length of the first.
pub fn is_valid_matrix(a: &Vec<Vec<u64>>) -> (valid: bool)
    ensures
        valid == rectangular(a@),
{
    if a.len() == 0 {
        return false;
    }
    let m = a[0].len();
    let mut i: usize = 0;
    while i < a.len()
        invariant
            i <= a@.len(),
            a@.len() > 0,
            m == a@[0]@.len(),
            forall|k: int| 0 <= k < i ==> (#[trigger] a@[k])@.len() == m,
        decreases a@.len() - i,
    {
        if a[i].len() != m {
            return false;
        }
        i = i + 1;
    }
    true
}

/// `n` rows of `m` zeros.
pub fn empty_matrix(n: usize, m: usize) -> (a: Vec<Vec<u64>>)
    ensures
        a@.len() == n,
        forall|i: int| 0 <= i < n ==> (#[trigger] a@[i])@.len() == m,
        forall|i: int, j: int| 0 <= i < n && 0 <= j < m ==> #[trigger] a@[i]@[j] == 0,
{
    let mut a: Vec<Vec<u64>> = Vec::new();
    let mut i: usize = 0;
    while i < n
        invariant
            i <= n,
            a@.len() == i,
            forall|k: int| 0 <= k < i ==> (#[trigger] a@[k])@.len() == m,
            forall|k: int, j: int| 0 <= k < i && 0 <= j < m ==> #[trigger] a@[k]@[j] == 0,
        decreases n - i,
    {
        let row: Vec<u64> = vec![0; m];
        a.push(row);
        i = i + 1;
    }
    a
}

/// Entry `(i, j)` of the product of `a` and `b`: the sum over `k` of
/// `a[k][j] * b[i][k]`, in the field.
pub fn sum_of_prods(field: &Field, a: &Vec<Vec<u64>>, b: &Vec<Vec<u64>>, i: usize, j: usize) -> (s:
    u64)
    requires
        i < b@.len(),
        a@.len() <= b@[i as int]@.len(),
        forall|k: int| 0 <= k < a@.len() ==> j < (#[trigger] a@[k])@.len(),
    ensures
        s == dot(a@, b@, i as int, j as int) % (field.modulus() as int),
        s < field.modulus(),
{
    let p = field.modulus();
    let ghost m = p as int;
    let ghost term = dot_term(a@, b@, i as int, j as int);
    let mut acc: u64 = 0;
    let mut k: usize = 0;
    proof {
        lemma_small_mod(0, m as nat);
    }
    while k < a.len()
        invariant
            k <= a@.len(),
            i < b@.len(),
            a@.len() <= b@[i as int]@.len(),
            forall|q: int| 0 <= q < a@.len() ==> j < (#[trigger] a@[q])@.len(),
            m == p,
            m >= 2,
            m == field.modulus(),
            term == dot_term(a@, b@, i as int, j as int),
            acc < p,
            acc == sum_to(term, k as nat) % m,
        decreases a@.len() - k,
    {
        let x = a[k][j];
        let y = b[i][k];
        let part = field.mul(x, y);
        proof {
            assert(term(k as int) == x * y);
            lemma_mod_twice(x * y, m);
            lemma_small_mod(acc as nat, m as nat);
            lemma_congruent_add(acc as int, sum_to(term, k as nat), part as int, x * y, m);
        }
        acc = field.add(acc, part);
        k = k + 1;
    }
    acc
}

/// The product of `a` and `b` in the field: as many rows as `b` has, each as
/// long as the rows of `a`, with entry `(i, j)` the sum over `k` of
/// `a[k][j] * b[i][k]`.
///
/// Both must be matrices, and `a` must have as many rows as the rows of `b`
/// are long.
pub fn matmul(field: &Field, a: &Vec<Vec<u64>>, b: &Vec<Vec<u64>>) -> (product: Result<
    Vec<Vec<u64>>,
    &'static str,
>)
    ensures
        !rectangular(a@) || !rectangular(b@) ==> product is Err && product->Err_0@
            == "Invalid matrix"@,
        rectangular(a@) && rectangular(b@) && a@.len() != b@[0]@.len() ==> product is Err
            && product->Err_0@ == "Invalid dimensions for multiplication"@,
        rectangular(a@) && rectangular(b@) && a@.len() == b@[0]@.len() ==> {
            &&& product matches Ok(c)
            &&& product->Ok_0@.len() == b@.len()
            &&& forall|i: int|
                0 <= i < b@.len() ==> (#[trigger] product->Ok_0@[i])@.len() == a@[0]@.len()
            &&& forall|i: int, j: int|
                0 <= i < b@.len() && 0 <= j < a@[0]@.len() ==> #[trigger] product->Ok_0@[i]@[j]
                    == dot(a@, b@, i, j) % (field.modulus() as int)
        },
{
    if !is_valid_matrix(a) || !is_valid_matrix(b) {
        return Err("Invalid matrix");
    }
    if a.len() != b[0].len() {
        return Err("Invalid dimensions for multiplication");
    }
    let n = b.len();
    let m = a[0].len();
    let mut product = empty_matrix(n, m);
    let mut i: usize = 0;
    while i < n
        invariant
            i <= n,
            n == b@.len(),
            m == a@[0]@.len(),
            rectangular(a@),
            rectangular(b@),
            a@.len() == b@[0]@.len(),
            product@.len() == n,
            forall|k: int| 0 <= k < n ==> (#[trigger] product@[k])@.len() == m,
            forall|k: int, j: int|
                0 <= k < i && 0 <= j < m ==> #[trigger] product@[k]@[j] == dot(a@, b@, k, j) % (
                field.modulus() as int),
        decreases n - i,
    {
        let mut row: Vec<u64> = Vec::with_capacity(m);
        let mut j: usize = 0;
        while j < m
            invariant
                j <= m,
                i < n,
                n == b@.len(),
                m == a@[0]@.len(),
                rectangular(a@),
                rectangular(b@),
                a@.len() == b@[0]@.len(),
                row@.len() == j,
                forall|q: int|
                    0 <= q < j ==> #[trigger] row@[q] == dot(a@, b@, i as int, q) % (
                    field.modulus() as int),
            decreases m - j,
        {
            let s = sum_of_prods(field, a, b, i, j);
            row.push(s);
            j = j + 1;
        }
        product.set(i, row);
        i = i + 1;
    }
    Ok(product)
}

} // verus!
