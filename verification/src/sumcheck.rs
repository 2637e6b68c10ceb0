//! The sumcheck protocol for a table of `2^v` values: a prover that folds the
//! table one variable at a time and writes down a transcript, and a verifier
//! that checks the transcript, alone or against the table's extension.
//!
//! Round `i` binds the `i`-th coordinate of the final evaluation point, which
//! goes with the `i`-th highest bit of an index: the round splits the table
//! into its lower and its upper half.

use crate::error::SumcheckError;
use crate::field::Field;
use crate::mle::{
    is_power_of_two, lemma_pow2_injective, mle, mle_eval, mle_sum, mle_term, table_dimension,
    weight,
};
use crate::modular::{lemma_congruent_add, lemma_congruent_line, lemma_congruent_mul};
use crate::random::random_below;
use crate::sums::{lemma_sum_congruent, lemma_sum_equal, lemma_sum_linear, lemma_sum_split, sum_to};
use vstd::arithmetic::div_mod::{lemma_mod_bound, lemma_mod_twice, lemma_small_mod};
use vstd::arithmetic::power2::{lemma2_to64, lemma_pow2_unfold, pow2};
use vstd::prelude::*;
use vstd::slice::slice_subrange;

verus! {

/// What the prover writes down in one round.
#[derive(Clone, Copy, Debug, PartialEq, Eq, Structural)]
pub struct Round {
    /// The sum of the lower half of the round's table.
    pub e0: u64,
    /// The sum of the upper half of the round's table.
    pub e1: u64,
    /// The sum that the round starts from.
    pub sum: u64,
    /// The challenge that was revealed after the round before; zero in the
    /// first round.
    pub challenge: u64,
}

/// The entries of a table as integers.
pub open spec fn values(f: Seq<u64>) -> spec_fn(int) -> int {
    |w: int| f[w] as int
}

/// The sum of all entries of a table, as an integer.
pub open spec fn table_sum(f: Seq<u64>) -> int {
    sum_to(values(f), f.len())
}

/// The sum of the lower half of `t`, modulo `p`.
pub open spec fn round_e0(t: Seq<u64>, p: int) -> int {
    table_sum(t.take(t.len() as int / 2)) % p
}

/// The sum of the upper half of `t`, modulo `p`.
pub open spec fn round_e1(t: Seq<u64>, p: int) -> int {
    table_sum(t.skip(t.len() as int / 2)) % p
}

/// The value at `r`, modulo `p`, of the line that is `e0` at zero and `e1` at
/// one.
pub open spec fn line_at(e0: int, e1: int, r: int, p: int) -> int {
    (e0 + r * (e1 - e0)) % p
}

/// The table with its first variable set to `r`: entry `j` of the result is
/// the line through entry `j` of the lower half and entry `j` of the upper
/// half, taken at `r`.
pub open spec fn fold_table(t: Seq<u64>, r: u64, p: int) -> Seq<u64> {
    let half = t.len() as int / 2;
    Seq::new(half as nat, |j: int| line_at(t[j] as int, t[j + half] as int, r as int, p) as u64)
}

/// A table's sum is the sum of its first `h` entries plus the sum of the rest.
pub proof fn lemma_table_sum_split(t: Seq<u64>, h: int)
    requires
        0 <= h <= t.len(),
    ensures
        table_sum(t) == table_sum(t.take(h)) + table_sum(t.skip(h)),
{
    let lo = t.take(h);
    let hi = t.skip(h);
    lemma_sum_split(values(t), values(hi), h as nat, (t.len() - h) as nat);
    lemma_sum_equal(values(t), values(lo), h as nat);
}

/// The sum of the folded table is the round's line taken at the challenge.
pub proof fn lemma_fold_sum(t: Seq<u64>, r: u64, p: int)
    requires
        0 < p <= u64::MAX,
        t.len() % 2 == 0,
    ensures
        table_sum(fold_table(t, r, p)) % p == line_at(round_e0(t, p), round_e1(t, p), r as int, p),
{
    let half = t.len() as int / 2;
    let lo = t.take(half);
    let hi = t.skip(half);
    let g = fold_table(t, r, p);
    let exact = |j: int| (1 - r) * values(lo)(j) + r * values(hi)(j);
    assert forall|j: int| 0 <= j < half implies #[trigger] values(g)(j) % p == exact(j) % p by {
        let x = t[j] as int;
        let y = t[j + half] as int;
        lemma_mod_bound(x + r * (y - x), p);
        lemma_mod_twice(x + r * (y - x), p);
        assert(x + r * (y - x) == (1 - r) * x + r * y) by (nonlinear_arith);
    }
    lemma_sum_congruent(values(g), exact, half as nat, p);
    lemma_sum_linear(exact, values(lo), values(hi), 1 - r, r as int, half as nat);
    let s0 = table_sum(lo);
    let s1 = table_sum(hi);
    assert((1 - r) * s0 + r * s1 == s0 + r * (s1 - s0)) by (nonlinear_arith);
    lemma_mod_twice(s0, p);
    lemma_mod_twice(s1, p);
    lemma_congruent_line(s0 % p, s0, s1 % p, s1, r as int, p);
}

/// Folding is setting the first variable: the extension of the folded table
/// at any point `e` is the extension of the table itself at `r` followed by
/// `e`.
pub proof fn lemma_fold_preserves_mle(t: Seq<u64>, r: u64, e: Seq<u64>, p: int)
    requires
        0 < p <= u64::MAX,
        t.len() == pow2(e.len() + 1),
    ensures
        mle(fold_table(t, r, p), e, p) == mle(t, seq![r] + e, p),
{
    let point = seq![r] + e;
    let half = pow2(e.len()) as int;
    lemma_pow2_unfold(e.len() + 1);
    assert(half == t.len() as int / 2);
    assert(point.drop_first() =~= e);
    let lo = t.take(half);
    let hi = t.skip(half);
    let g = fold_table(t, r, p);
    let a = mle_term(lo, e);
    let b = mle_term(hi, e);
    let whole = mle_term(t, point);
    let upper = |j: int| whole(half + j);
    // The table's own extension, split at the middle.
    lemma_sum_split(whole, upper, half as nat, half as nat);
    assert forall|j: int| 0 <= j < half implies #[trigger] whole(j) == (1 - r) * a(j) + 0 * b(
        j,
    ) by {
        let x = t[j] as int;
        let wt = weight(e, j);
        assert(x * ((1 - r) * wt) == (1 - r) * (x * wt) + 0 * b(j)) by (nonlinear_arith);
    }
    lemma_sum_linear(whole, a, b, 1 - r, 0, half as nat);
    assert forall|j: int| 0 <= j < half implies #[trigger] upper(j) == 0 * a(j) + r * b(j) by {
        let y = t[half + j] as int;
        let wt = weight(e, j);
        assert(hi[j] == t[half + j]);
        assert(y * (r * wt) == 0 * a(j) + r * (y * wt)) by (nonlinear_arith);
    }
    lemma_sum_linear(upper, a, b, 0, r as int, half as nat);
    let sa = sum_to(a, half as nat);
    let sb = sum_to(b, half as nat);
    assert(mle_sum(t, point) == ((1 - r) * sa + 0 * sb) + (0 * sa + r * sb));
    // The folded table's extension.
    let folded = mle_term(g, e);
    let exact = |j: int| (1 - r) * a(j) + r * b(j);
    assert forall|j: int| 0 <= j < half implies #[trigger] folded(j) % p == exact(j) % p by {
        let x = t[j] as int;
        let y = t[j + half] as int;
        let wt = weight(e, j);
        lemma_mod_bound(x + r * (y - x), p);
        lemma_mod_twice(x + r * (y - x), p);
        lemma_congruent_mul(g[j] as int, x + r * (y - x), wt, wt, p);
        assert((x + r * (y - x)) * wt == (1 - r) * (x * wt) + r * (y * wt)) by (nonlinear_arith);
    }
    lemma_sum_congruent(folded, exact, half as nat, p);
    lemma_sum_linear(exact, a, b, 1 - r, r as int, half as nat);
    assert(0 * sa == 0 && 0 * sb == 0);
}

/// The table as it stands after `i` rounds with the challenges `cs`.
pub open spec fn stage_table(f: Seq<u64>, cs: Seq<u64>, i: nat, p: int) -> Seq<u64>
    decreases i,
{
    if i == 0 {
        f
    } else {
        fold_table(stage_table(f, cs, (i - 1) as nat, p), cs[i - 1], p)
    }
}

/// The sum that round `i` starts from: the claimed sum in the first round,
/// and after that the line of the round before, taken at its challenge.
pub open spec fn stage_sum(f: Seq<u64>, sum: u64, cs: Seq<u64>, i: nat, p: int) -> int {
    if i == 0 {
        sum as int
    } else {
        let before = stage_table(f, cs, (i - 1) as nat, p);
        line_at(round_e0(before, p), round_e1(before, p), cs[i - 1] as int, p)
    }
}

/// The whole buffer after `i` rounds: the folded table in front, and behind it
/// what the earlier rounds left there.
pub open spec fn buffer_at(f: Seq<u64>, cs: Seq<u64>, i: nat, p: int) -> Seq<u64>
    decreases i,
{
    if i == 0 {
        f
    } else {
        let before = stage_table(f, cs, (i - 1) as nat, p);
        fold_table(before, cs[i - 1], p) + buffer_at(f, cs, (i - 1) as nat, p).skip(
            before.len() as int / 2,
        )
    }
}

/// What an honest prover writes down in round `i`.
pub open spec fn honest_round(f: Seq<u64>, sum: u64, cs: Seq<u64>, i: nat, p: int) -> Round {
    let t = stage_table(f, cs, i, p);
    Round {
        e0: round_e0(t, p) as u64,
        e1: round_e1(t, p) as u64,
        sum: stage_sum(f, sum, cs, i, p) as u64,
        challenge: if i == 0 {
            0
        } else {
            cs[i - 1]
        },
    }
}

/// The transcript of an honest prover for the table `f`, the claimed sum
/// `sum` and the challenges `cs`, one round for each challenge.
pub open spec fn transcript(f: Seq<u64>, sum: u64, cs: Seq<u64>, p: int) -> Seq<Round> {
    Seq::new(cs.len(), |i: int| honest_round(f, sum, cs, i as nat, p))
}

/// After `i` rounds a table of `2^v` values has `2^(v - i)` left.
pub proof fn lemma_stage_len(f: Seq<u64>, cs: Seq<u64>, i: nat, p: int, v: nat)
    requires
        f.len() == pow2(v),
        i <= v,
    ensures
        stage_table(f, cs, i, p).len() == pow2((v - i) as nat),
    decreases i,
{
    if i > 0 {
        lemma_stage_len(f, cs, (i - 1) as nat, p, v);
        lemma_pow2_unfold((v - i + 1) as nat);
    }
}

/// The first `i` rounds see only the first `i` challenges.
pub proof fn lemma_stage_prefix(f: Seq<u64>, sum: u64, a: Seq<u64>, b: Seq<u64>, i: nat, p: int)
    requires
        i <= a.len(),
        i <= b.len(),
        forall|j: int| 0 <= j < i ==> a[j] == b[j],
    ensures
        stage_table(f, a, i, p) == stage_table(f, b, i, p),
        buffer_at(f, a, i, p) == buffer_at(f, b, i, p),
        stage_sum(f, sum, a, i, p) == stage_sum(f, sum, b, i, p),
    decreases i,
{
    if i > 0 {
        lemma_stage_prefix(f, sum, a, b, (i - 1) as nat, p);
    }
}

/// `a[lo] + ... + a[hi - 1]` modulo the field's prime.
fn range_sum(field: &Field, a: &[u64], lo: usize, hi: usize) -> (s: u64)
    requires
        lo <= hi <= a@.len(),
    ensures
        s == table_sum(a@.subrange(lo as int, hi as int)) % (field.modulus() as int),
{
    let p = field.modulus();
    let ghost m = p as int;
    let mut acc: u64 = 0;
    let mut k: usize = lo;
    proof {
        assert(a@.subrange(lo as int, lo as int).len() == 0);
    }
    while k < hi
        invariant
            lo <= k <= hi <= a@.len(),
            m == p,
            m >= 2,
            m == field.modulus(),
            acc < p,
            acc == table_sum(a@.subrange(lo as int, k as int)) % m,
        decreases hi - k,
    {
        proof {
            let shorter = a@.subrange(lo as int, k as int);
            let longer = a@.subrange(lo as int, k + 1);
            lemma_sum_equal(values(longer), values(shorter), shorter.len());
            assert(table_sum(longer) == table_sum(shorter) + a@[k as int]);
            lemma_small_mod(acc as nat, m as nat);
            let x = a@[k as int] as int;
            lemma_congruent_add(acc as int, table_sum(shorter), x, x, m);
        }
        acc = field.add(acc, a[k]);
        k = k + 1;
    }
    acc
}

/// The two numbers of a round's message for the table `f[..len]`: the sum of
/// its lower half and the sum of its upper half.
pub fn round_sums(field: &Field, f: &[u64], len: usize) -> (e: (u64, u64))
    requires
        len <= f@.len(),
    ensures
        e.0 == round_e0(f@.take(len as int), field.modulus() as int),
        e.1 == round_e1(f@.take(len as int), field.modulus() as int),
{
    let half = len / 2;
    proof {
        let t = f@.take(len as int);
        assert(t.take(half as int) =~= f@.subrange(0, half as int));
        assert(t.skip(half as int) =~= f@.subrange(half as int, len as int));
    }
    let e0 = range_sum(field, f, 0, half);
    let e1 = range_sum(field, f, half, len);
    (e0, e1)
}

/// The value at `r` of the line that is `e0` at zero and `e1` at one.
pub fn eval_line(field: &Field, e0: u64, e1: u64, r: u64) -> (y: u64)
    ensures
        y == line_at(e0 as int, e1 as int, r as int, field.modulus() as int),
        y < field.modulus(),
{
    let p = field.modulus();
    let slope = field.sub(e1, e0);
    let rise = field.mul(r, slope);
    proof {
        let m = p as int;
        lemma_mod_twice(e1 - e0, m);
        lemma_congruent_mul(r as int, r as int, slope as int, e1 - e0, m);
        lemma_mod_twice(r * slope, m);
        lemma_congruent_add(e0 as int, e0 as int, rise as int, r * (e1 - e0), m);
    }
    field.add(e0, rise)
}

/// Sets the first variable of the table `f[..len]` to `r`, in place: the
/// folded table takes the lower half's room, and the rest of the buffer stays
/// as it is.
pub fn fold(field: &Field, f: &mut [u64], len: usize, r: u64)
    requires
        len <= old(f)@.len(),
    ensures
        final(f)@ == fold_table(old(f)@.take(len as int), r, field.modulus() as int) + old(f)@.skip(
            len as int / 2,
        ),
{
    let half = len / 2;
    let ghost m = field.modulus() as int;
    let ghost t = f@.take(len as int);
    let mut j: usize = 0;
    while j < half
        invariant
            j <= half,
            half == len / 2,
            len <= f@.len(),
            f@.len() == old(f)@.len(),
            m == field.modulus(),
            t == old(f)@.take(len as int),
            forall|k: int|
                0 <= k < j ==> f@[k] == line_at(t[k] as int, t[k + half] as int, r as int, m),
            forall|k: int| j <= k < f@.len() ==> f@[k] == old(f)@[k],
        decreases half - j,
    {
        let y = eval_line(field, f[j], f[j + half], r);
        f[j] = y;
        j = j + 1;
    }
    proof {
        assert(f@ =~= fold_table(t, r, m) + old(f)@.skip(half as int));
    }
}

/// The challenge that follows a round's message.
///
/// It is drawn at random, whatever the message is: nothing ties it to the
/// transcript, so it can stand for a verifier's coin and not for a hash.
pub fn fiat_shamir(field: &Field, coefs: Vec<u64>) -> (r: u64)
    ensures
        r < field.modulus(),
{
    random_below(field.modulus())
}

/// The two halves' sums add up to the table's sum, modulo `p`.
pub proof fn lemma_round_sums_total(t: Seq<u64>, p: int)
    requires
        p > 0,
    ensures
        (round_e0(t, p) + round_e1(t, p)) % p == table_sum(t) % p,
{
    let half = t.len() as int / 2;
    let s0 = table_sum(t.take(half));
    let s1 = table_sum(t.skip(half));
    lemma_table_sum_split(t, half);
    lemma_mod_twice(s0, p);
    lemma_mod_twice(s1, p);
    lemma_congruent_add(s0 % p, s0, s1 % p, s1, p);
}

/// One more round: what the transcript, the table, the buffer and the running
/// sum become when the challenge `r` follows the challenges `cs`.
proof fn lemma_next_round(f: Seq<u64>, sum: u64, cs: Seq<u64>, r: u64, p: int, v: nat)
    requires
        0 < p <= u64::MAX,
        f.len() == pow2(v),
        cs.len() < v,
    ensures
        ({
            let i = cs.len();
            let longer = cs.push(r);
            let t = stage_table(f, cs, i, p);
            let next = stage_table(f, longer, i + 1, p);
            &&& t.len() == pow2((v - i) as nat)
            &&& t.len() == 2 * next.len()
            &&& transcript(f, sum, longer, p) == transcript(f, sum, cs, p).push(
                honest_round(f, sum, cs, i, p),
            )
            &&& next == fold_table(t, r, p)
            &&& buffer_at(f, longer, i + 1, p) == fold_table(t, r, p) + buffer_at(f, cs, i, p).skip(
                t.len() as int / 2,
            )
            &&& stage_sum(f, sum, longer, i + 1, p) == line_at(
                round_e0(t, p),
                round_e1(t, p),
                r as int,
                p,
            )
            &&& stage_sum(f, sum, longer, i + 1, p) == table_sum(next) % p
        }),
{
    let i = cs.len();
    let longer = cs.push(r);
    let t = stage_table(f, cs, i, p);
    lemma_stage_len(f, cs, i, p, v);
    lemma_pow2_unfold((v - i) as nat);
    lemma_stage_prefix(f, sum, cs, longer, i, p);
    assert forall|k: nat| k < i implies #[trigger] honest_round(f, sum, cs, k, p) == honest_round(
        f,
        sum,
        longer,
        k,
        p,
    ) by {
        lemma_stage_prefix(f, sum, cs, longer, k, p);
    }
    assert(transcript(f, sum, longer, p) =~= transcript(f, sum, cs, p).push(
        honest_round(f, sum, cs, i, p),
    ));
    lemma_fold_sum(t, r, p);
}

/// The number of variables of a table of `len` values, where `size` is what
/// the caller takes it to be.
fn check_table(len: usize, size: u64) -> (dim: Result<usize, SumcheckError>)
    ensures
        !is_power_of_two(len as nat) ==> dim == Err::<usize, SumcheckError>(
            SumcheckError::TableNotPowerOfTwo,
        ),
        is_power_of_two(len as nat) && len != pow2(size as nat) ==> dim == Err::<
            usize,
            SumcheckError,
        >(SumcheckError::DimensionMismatch),
        len == pow2(size as nat) ==> dim == Ok::<usize, SumcheckError>(size as usize) && size
            <= usize::MAX,
{
    match table_dimension(len) {
        None => Err(SumcheckError::TableNotPowerOfTwo),
        Some(k) => {
            proof {
                if len == pow2(size as nat) {
                    lemma_pow2_injective(size as nat, k as nat);
                }
            }
            if k as u64 == size {
                Ok(k)
            } else {
                Err(SumcheckError::DimensionMismatch)
            }
        },
    }
}

/// `r` is what `next` may return when it is handed the rounds `rounds`.
pub open spec fn answered<F: Fn(&[Round]) -> u64>(next: F, rounds: Seq<Round>, r: u64) -> bool {
    exists|t: &[Round]| t@ == rounds && call_ensures(next, (t,), r)
}

/// Each challenge of `cs` is what `next` may return when it is handed the
/// rounds written down so far, the challenge's own round being the last.
pub open spec fn derived<F: Fn(&[Round]) -> u64>(next: F, proof: Seq<Round>, cs: Seq<u64>) -> bool {
    forall|i: int| 0 <= i < cs.len() ==> answered(next, proof.take(i + 1), #[trigger] cs[i])
}

/// The rounds of the prover, for a table of `2^v` values. Each round's
/// challenge is asked of `next` once the round is written down.
fn run_rounds<F: Fn(&[Round]) -> u64>(
    field: &Field,
    f: &mut [u64],
    v: usize,
    sum: u64,
    next: F,
) -> (out: (Result<Vec<Round>, SumcheckError>, Ghost<Seq<u64>>))
    requires
        old(f)@.len() == pow2(v as nat),
        forall|t: &[Round]| 1 <= t@.len() <= v ==> call_requires(next, (t,)),
    ensures
        sum != table_sum(old(f)@) % (field.modulus() as int) ==> out.0 == Err::<
            Vec<Round>,
            SumcheckError,
        >(SumcheckError::SumMismatch) && final(f)@ == old(f)@,
        sum == table_sum(old(f)@) % (field.modulus() as int) ==> {
            &&& out.1@.len() == v
            &&& out.0 matches Ok(rounds)
            &&& derived(next, out.0->Ok_0@, out.1@)
            &&& out.0->Ok_0@ == transcript(old(f)@, sum, out.1@, field.modulus() as int)
            &&& final(f)@ == buffer_at(old(f)@, out.1@, v as nat, field.modulus() as int)
        },
{
    let p = field.modulus();
    let ghost m = p as int;
    let ghost f0 = f@;
    let ghost mut cs: Seq<u64> = Seq::empty();
    let mut rounds: Vec<Round> = Vec::new();
    let mut challenge: u64 = 0;
    let mut s: u64 = sum;
    let mut len: usize = f.len();
    let mut i: usize = 0;
    proof {
        assert(f@.take(len as int) =~= f0);
        assert(rounds@ =~= transcript(f0, sum, cs, m));
    }
    while i < v
        invariant
            i <= v,
            m == p,
            2 <= m <= u64::MAX,
            m == field.modulus(),
            f0 == old(f)@,
            f0.len() == pow2(v as nat),
            f@.len() == f0.len(),
            len == pow2((v - i) as nat),
            len <= f@.len(),
            cs.len() == i,
            forall|t: &[Round]| 1 <= t@.len() <= v ==> call_requires(next, (t,)),
            derived(next, rounds@, cs),
            rounds@ == transcript(f0, sum, cs, m),
            f@ == buffer_at(f0, cs, i as nat, m),
            f@.take(len as int) == stage_table(f0, cs, i as nat, m),
            s == stage_sum(f0, sum, cs, i as nat, m),
            challenge == (if i == 0 {
                0
            } else {
                cs[i - 1]
            }),
            i >= 1 ==> s == table_sum(stage_table(f0, cs, i as nat, m)) % m,
            i >= 1 ==> sum == table_sum(f0) % m,
        decreases v - i,
    {
        let ghost t = f@.take(len as int);
        let ghost written = rounds@;
        let (e0, e1) = round_sums(field, f, len);
        proof {
            lemma_round_sums_total(t, m);
        }
        if field.add(e0, e1) != s {
            return (Err(SumcheckError::SumMismatch), Ghost(cs));
        }
        rounds.push(Round { e0, e1, sum: s, challenge });
        let r = next(rounds.as_slice());
        fold(field, f, len, r);
        let after = eval_line(field, e0, e1, r);
        proof {
            lemma_next_round(f0, sum, cs, r, m, v as nat);
            lemma_pow2_unfold((v - i) as nat);
            assert(f@.take(len as int / 2) =~= fold_table(t, r, m));
            let longer = cs.push(r);
            assert forall|k: int| 0 <= k < longer.len() implies answered(
                next,
                rounds@.take(k + 1),
                #[trigger] longer[k],
            ) by {
                if k < i {
                    assert(rounds@.take(k + 1) =~= written.take(k + 1));
                    assert(answered(next, written.take(k + 1), cs[k]));
                } else {
                    assert(rounds@.take(k + 1) =~= rounds@);
                }
            }
            cs = longer;
        }
        s = after;
        challenge = r;
        len = len / 2;
        i = i + 1;
    }
    proof {
        lemma2_to64();
        let last = f@.take(1);
        lemma_mle_of_one(last, Seq::empty(), m);
        assert(last[0] == f@[0]);
        if v == 0 {
            assert(last =~= f0);
        }
    }
    if field.reduce(f[0]) != s {
        return (Err(SumcheckError::SumMismatch), Ghost(cs));
    }
    (Ok(rounds), Ghost(cs))
}

/// Proves that the table `f` of `2^size` values sums to `sum`. Each round's
/// challenge is asked of `next`, which is handed the rounds written down so
/// far, that round included: a verifier's answer, or a hash of the
/// transcript.
///
/// The claim is refused unless `sum` is the table's sum as an element of the
/// field, that is, reduced.
///
/// The table is folded in place. Where the proof is refused, the table is as
/// it was. Whatever `next` answers, the proof and the buffer are those of
/// `prove_with_challenges` with its answers as the challenges, and the proof
/// passes the full check against the table.
pub fn prove_with<F: Fn(&[Round]) -> u64>(
    field: &Field,
    f: &mut [u64],
    size: u64,
    sum: u64,
    next: F,
) -> (proof: Result<Vec<Round>, SumcheckError>)
    requires
        forall|t: &[Round]| 1 <= t@.len() <= size ==> call_requires(next, (t,)),
    ensures
        !is_power_of_two(old(f)@.len()) ==> proof == Err::<Vec<Round>, SumcheckError>(
            SumcheckError::TableNotPowerOfTwo,
        ),
        is_power_of_two(old(f)@.len()) && old(f)@.len() != pow2(size as nat) ==> proof == Err::<
            Vec<Round>,
            SumcheckError,
        >(SumcheckError::DimensionMismatch),
        old(f)@.len() == pow2(size as nat) && sum != table_sum(old(f)@) % (field.modulus() as int)
            ==> proof == Err::<Vec<Round>, SumcheckError>(SumcheckError::SumMismatch),
        proof is Err ==> final(f)@ == old(f)@,
        old(f)@.len() == pow2(size as nat) && sum == table_sum(old(f)@) % (field.modulus() as int)
            ==> proof is Ok && exists|cs: Seq<u64>|
            {
                &&& cs.len() == size
                &&& derived(next, proof->Ok_0@, cs)
                &&& #[trigger] transcript(old(f)@, sum, cs, field.modulus() as int)
                    == proof->Ok_0@
                &&& final(f)@ == buffer_at(old(f)@, cs, size as nat, field.modulus() as int)
                &&& oracle_accepts(proof->Ok_0@, size, sum, cs, old(f)@, field.modulus() as int)
            },
        proof is Ok ==> transcript_consistent(proof->Ok_0@, size, sum, field.modulus() as int),
{
    let v = match check_table(f.len(), size) {
        Err(e) => {
            return Err(e);
        },
        Ok(v) => v,
    };
    let p = field.modulus();
    let ghost f0 = f@;
    let (proof, cs) = run_rounds(field, f, v, sum, next);
    proof {
        if sum == table_sum(f0) % (p as int) {
            lemma_completeness(f0, sum, cs@, p as int);
        }
    }
    proof
}

/// Proves that the table `f` of `2^size` values sums to `sum`, with the
/// challenges that the caller supplies, one for each round.
///
/// The table is folded in place. Where the proof is refused, the table is as
/// it was. The proof that comes out passes the full check against the table.
pub fn prove_with_challenges(
    field: &Field,
    f: &mut [u64],
    size: u64,
    sum: u64,
    challenges: &[u64],
) -> (proof: Result<Vec<Round>, SumcheckError>)
    ensures
        !is_power_of_two(old(f)@.len()) ==> proof == Err::<Vec<Round>, SumcheckError>(
            SumcheckError::TableNotPowerOfTwo,
        ),
        is_power_of_two(old(f)@.len()) && (old(f)@.len() != pow2(size as nat) || challenges@.len()
            != size) ==> proof == Err::<Vec<Round>, SumcheckError>(
            SumcheckError::DimensionMismatch,
        ),
        old(f)@.len() == pow2(size as nat) && challenges@.len() == size && sum != table_sum(
            old(f)@,
        ) % (field.modulus() as int) ==> proof == Err::<Vec<Round>, SumcheckError>(
            SumcheckError::SumMismatch,
        ),
        proof is Err ==> final(f)@ == old(f)@,
        old(f)@.len() == pow2(size as nat) && challenges@.len() == size && sum == table_sum(
            old(f)@,
        ) % (field.modulus() as int) ==> {
            &&& proof matches Ok(rounds)
            &&& proof->Ok_0@ == transcript(old(f)@, sum, challenges@, field.modulus() as int)
            &&& final(f)@ == buffer_at(
                old(f)@,
                challenges@,
                size as nat,
                field.modulus() as int,
            )
            &&& oracle_accepts(
                proof->Ok_0@,
                size,
                sum,
                challenges@,
                old(f)@,
                field.modulus() as int,
            )
        },
{
    let v = match check_table(f.len(), size) {
        Err(e) => {
            return Err(e);
        },
        Ok(v) => v,
    };
    if challenges.len() != v {
        return Err(SumcheckError::DimensionMismatch);
    }
    let p = field.modulus();
    proof {
        if sum == table_sum(f@) % (p as int) {
            lemma_completeness(f@, sum, challenges@, p as int);
        }
    }
    let supplied = |t: &[Round]| -> (r: u64)
        requires
            1 <= t@.len() <= challenges@.len(),
        ensures
            r == challenges@[t@.len() - 1],
        { challenges[t.len() - 1] };
    let (proof, cs) = run_rounds(field, f, v, sum, supplied);
    proof {
        if proof is Ok {
            assert forall|i: int| 0 <= i < v implies cs@[i] == challenges@[i] by {
                assert(answered(supplied, proof->Ok_0@.take(i + 1), cs@[i]));
            }
            assert(cs@ =~= challenges@);
        }
    }
    proof
}

/// Proves that the table `f` of `2^size` values sums to `sum`, drawing each
/// round's challenge once the round's message is written down.
///
/// The table is folded in place. Where the proof is refused, the table is as
/// it was. Whatever the challenges come out as, each is below the modulus,
/// the proof and the buffer are those of `prove_with_challenges` with the
/// same challenges, and the proof passes the full check against the table.
pub fn prove_sumcheck(field: &Field, f: &mut [u64], size: u64, sum: u64) -> (proof: Result<
    Vec<Round>,
    SumcheckError,
>)
    ensures
        !is_power_of_two(old(f)@.len()) ==> proof == Err::<Vec<Round>, SumcheckError>(
            SumcheckError::TableNotPowerOfTwo,
        ),
        is_power_of_two(old(f)@.len()) && old(f)@.len() != pow2(size as nat) ==> proof == Err::<
            Vec<Round>,
            SumcheckError,
        >(SumcheckError::DimensionMismatch),
        old(f)@.len() == pow2(size as nat) && sum != table_sum(old(f)@) % (field.modulus() as int)
            ==> proof == Err::<Vec<Round>, SumcheckError>(SumcheckError::SumMismatch),
        proof is Err ==> final(f)@ == old(f)@,
        old(f)@.len() == pow2(size as nat) && sum == table_sum(old(f)@) % (field.modulus() as int)
            ==> proof is Ok && exists|cs: Seq<u64>|
            {
                &&& cs.len() == size
                &&& forall|j: int| 0 <= j < cs.len() ==> cs[j] < field.modulus()
                &&& #[trigger] transcript(old(f)@, sum, cs, field.modulus() as int)
                    == proof->Ok_0@
                &&& final(f)@ == buffer_at(old(f)@, cs, size as nat, field.modulus() as int)
                &&& oracle_accepts(proof->Ok_0@, size, sum, cs, old(f)@, field.modulus() as int)
            },
        proof is Ok ==> transcript_consistent(proof->Ok_0@, size, sum, field.modulus() as int),
{
    let v = match check_table(f.len(), size) {
        Err(e) => {
            return Err(e);
        },
        Ok(v) => v,
    };
    let p = field.modulus();
    let ghost f0 = f@;
    let drawn = |t: &[Round]| -> (r: u64)
        requires
            1 <= t@.len(),
        ensures
            r < field.modulus(),
        {
            let last = t[t.len() - 1];
            let slope = field.sub(last.e1, last.e0);
            fiat_shamir(field, vec![last.e0, slope])
        };
    let (proof, cs) = run_rounds(field, f, v, sum, drawn);
    proof {
        if sum == table_sum(f0) % (p as int) {
            lemma_completeness(f0, sum, cs@, p as int);
            assert forall|j: int| 0 <= j < v implies cs@[j] < field.modulus() by {
                assert(answered(drawn, proof->Ok_0@.take(j + 1), cs@[j]));
            }
        }
    }
    proof
}

/// Round `i` of a transcript agrees with itself and with the round before:
/// its two sums add up to the sum it starts from; the first round starts from
/// the claimed sum and records the challenge zero; every later round starts
/// from the line of the round before, taken at the challenge it records.
pub open spec fn round_consistent(proof: Seq<Round>, i: int, sum: u64, p: int) -> bool {
    let round = proof[i];
    &&& (round.e0 + round.e1) % p == round.sum
    &&& if i == 0 {
        round.sum == sum && round.challenge == 0
    } else {
        line_at(proof[i - 1].e0 as int, proof[i - 1].e1 as int, round.challenge as int, p)
            == round.sum
    }
}

/// A transcript of `size` rounds, each of them consistent.
///
/// This says nothing of the table that the sum is claimed of: a transcript
/// can be consistent and the claim false.
pub open spec fn transcript_consistent(proof: Seq<Round>, size: u64, sum: u64, p: int) -> bool {
    &&& proof.len() == size
    &&& forall|i: int| 0 <= i < proof.len() ==> #[trigger] round_consistent(proof, i, sum, p)
}

/// From the second round on, each round records the challenge that was
/// revealed after the round before.
pub open spec fn challenges_recorded(proof: Seq<Round>, cs: Seq<u64>) -> bool {
    forall|i: int| 1 <= i < proof.len() ==> (#[trigger] proof[i]).challenge == cs[i - 1]
}

/// What the transcript leaves to be checked against the table: the last
/// round's line taken at the last challenge, or the claimed sum itself where
/// there is no round.
pub open spec fn final_claim(proof: Seq<Round>, sum: u64, cs: Seq<u64>, p: int) -> int {
    if proof.len() == 0 {
        sum as int
    } else {
        line_at(proof.last().e0 as int, proof.last().e1 as int, cs.last() as int, p)
    }
}

/// The full check: the transcript is consistent, it records the challenges
/// `cs`, and what it leaves to be checked is the extension of `table` at the
/// point `cs`.
pub open spec fn oracle_accepts(
    proof: Seq<Round>,
    size: u64,
    sum: u64,
    cs: Seq<u64>,
    table: Seq<u64>,
    p: int,
) -> bool {
    &&& transcript_consistent(proof, size, sum, p)
    &&& challenges_recorded(proof, cs)
    &&& final_claim(proof, sum, cs, p) == mle(table, cs, p)
}

/// From the second round on, an honest prover's running sum is the sum of the
/// table as it then stands.
pub proof fn lemma_running_sum(f: Seq<u64>, sum: u64, cs: Seq<u64>, i: nat, p: int, v: nat)
    requires
        0 < p <= u64::MAX,
        f.len() == pow2(v),
        1 <= i <= v,
    ensures
        stage_sum(f, sum, cs, i, p) == table_sum(stage_table(f, cs, i, p)) % p,
{
    let before = stage_table(f, cs, (i - 1) as nat, p);
    lemma_stage_len(f, cs, (i - 1) as nat, p, v);
    lemma_pow2_unfold((v - i + 1) as nat);
    lemma_fold_sum(before, cs[i - 1], p);
}

/// Folding does not change the value at the point made of the challenges: the
/// extension of the table after `i` rounds, at the challenges still to come,
/// is the extension of the first table at all of them.
pub proof fn lemma_stage_mle(f: Seq<u64>, cs: Seq<u64>, i: nat, p: int)
    requires
        0 < p <= u64::MAX,
        f.len() == pow2(cs.len()),
        i <= cs.len(),
    ensures
        mle(stage_table(f, cs, i, p), cs.skip(i as int), p) == mle(f, cs, p),
    decreases i,
{
    if i == 0 {
        assert(cs.skip(0) =~= cs);
    } else {
        let before = stage_table(f, cs, (i - 1) as nat, p);
        lemma_stage_mle(f, cs, (i - 1) as nat, p);
        lemma_stage_len(f, cs, (i - 1) as nat, p, cs.len());
        lemma_fold_preserves_mle(before, cs[i - 1], cs.skip(i as int), p);
        assert(seq![cs[i - 1]] + cs.skip(i as int) =~= cs.skip(i - 1));
    }
}

/// The sum of a table with a single entry is that entry, and so is, modulo
/// `p`, its extension at the empty point.
pub proof fn lemma_mle_of_one(t: Seq<u64>, e: Seq<u64>, p: int)
    requires
        t.len() == 1,
        e.len() == 0,
    ensures
        mle(t, e, p) == (t[0] as int) % p,
        table_sum(t) == t[0],
{
    reveal_with_fuel(sum_to, 2);
    assert(mle_term(t, e)(0) == t[0] * weight(e, 0));
    assert(t[0] * 1 == t[0]);
}

/// Completeness: for a table of `2^v` values, any `v` challenges, and the
/// table's true sum modulo `p` as the claim, the honest prover's transcript
/// passes the full check against the same table. This holds for every `v`,
/// zero included.
pub proof fn lemma_completeness(f: Seq<u64>, sum: u64, cs: Seq<u64>, p: int)
    requires
        0 < p <= u64::MAX,
        cs.len() <= u64::MAX,
        f.len() == pow2(cs.len()),
        sum == table_sum(f) % p,
    ensures
        oracle_accepts(transcript(f, sum, cs, p), cs.len() as u64, sum, cs, f, p),
{
    let v = cs.len();
    let proof = transcript(f, sum, cs, p);
    assert forall|i: int| 0 <= i < proof.len() implies #[trigger] round_consistent(
        proof,
        i,
        sum,
        p,
    ) by {
        let t = stage_table(f, cs, i as nat, p);
        lemma_round_sums_total(t, p);
        lemma_mod_bound(table_sum(t.take(t.len() as int / 2)), p);
        lemma_mod_bound(table_sum(t.skip(t.len() as int / 2)), p);
        if i > 0 {
            let before = stage_table(f, cs, (i - 1) as nat, p);
            lemma_running_sum(f, sum, cs, i as nat, p, v);
            lemma_mod_bound(table_sum(t), p);
            lemma_mod_bound(table_sum(before.take(before.len() as int / 2)), p);
            lemma_mod_bound(table_sum(before.skip(before.len() as int / 2)), p);
            assert(proof[i - 1] == honest_round(f, sum, cs, (i - 1) as nat, p));
        }
    }
    let last = stage_table(f, cs, v, p);
    lemma_stage_len(f, cs, v, p, v);
    lemma2_to64();
    lemma_stage_mle(f, cs, v, p);
    lemma_mle_of_one(last, cs.skip(v as int), p);
    if v > 0 {
        let before = stage_table(f, cs, (v - 1) as nat, p);
        lemma_running_sum(f, sum, cs, v, p, v);
        lemma_mod_bound(table_sum(before.take(before.len() as int / 2)), p);
        lemma_mod_bound(table_sum(before.skip(before.len() as int / 2)), p);
        assert(proof.last() == honest_round(f, sum, cs, (v - 1) as nat, p));
    }
}

/// The check of a transcript against itself.
fn check_transcript(field: &Field, proof: &[Round], size: u64, sum: u64) -> (ok: bool)
    ensures
        ok == transcript_consistent(proof@, size, sum, field.modulus() as int),
{
    if proof.len() as u64 != size {
        return false;
    }
    let ghost m = field.modulus() as int;
    let mut i: usize = 0;
    while i < proof.len()
        invariant
            i <= proof@.len(),
            m == field.modulus(),
            forall|k: int| 0 <= k < i ==> #[trigger] round_consistent(proof@, k, sum, m),
        decreases proof@.len() - i,
    {
        let round = proof[i];
        if field.add(round.e0, round.e1) != round.sum {
            assert(!round_consistent(proof@, i as int, sum, m));
            return false;
        }
        if i == 0 {
            if round.sum != sum || round.challenge != 0 {
                assert(!round_consistent(proof@, i as int, sum, m));
                return false;
            }
        } else {
            let before = proof[i - 1];
            if eval_line(field, before.e0, before.e1, round.challenge) != round.sum {
                assert(!round_consistent(proof@, i as int, sum, m));
                return false;
            }
        }
        i = i + 1;
    }
    true
}

/// Checks a transcript against itself: that it has `size` rounds, starts from
/// the claimed sum, and that each round is consistent with the one before.
///
/// This does not look at the table that the sum is claimed of. On its own it
/// is no proof of the claim: use `verify_with_oracle` for that.
pub fn verify_sumcheck(field: &Field, proof: Vec<Round>, size: u64, sum: u64) -> (ok: bool)
    ensures
        ok == transcript_consistent(proof@, size, sum, field.modulus() as int),
{
    check_transcript(field, proof.as_slice(), size, sum)
}

/// The full check of a transcript: against itself, against the challenges
/// that were revealed, and against the extension of `table` at the point that
/// the challenges make.
///
/// A table or a number of challenges that does not fit `size` is an error;
/// everything else is accepted or rejected.
pub fn verify_with_oracle(
    field: &Field,
    proof: &[Round],
    size: u64,
    sum: u64,
    challenges: &[u64],
    table: &[u64],
) -> (verdict: Result<bool, SumcheckError>)
    ensures
        !is_power_of_two(table@.len()) ==> verdict == Err::<bool, SumcheckError>(
            SumcheckError::TableNotPowerOfTwo,
        ),
        is_power_of_two(table@.len()) && (table@.len() != pow2(size as nat) || challenges@.len()
            != size) ==> verdict == Err::<bool, SumcheckError>(SumcheckError::DimensionMismatch),
        table@.len() == pow2(size as nat) && challenges@.len() == size ==> verdict == Ok::<
            bool,
            SumcheckError,
        >(oracle_accepts(proof@, size, sum, challenges@, table@, field.modulus() as int)),
{
    let v = match check_table(table.len(), size) {
        Err(e) => {
            return Err(e);
        },
        Ok(v) => v,
    };
    if challenges.len() != v {
        return Err(SumcheckError::DimensionMismatch);
    }
    if !check_transcript(field, proof, size, sum) {
        return Ok(false);
    }
    let p = field.modulus();
    let ghost m = p as int;
    let mut i: usize = 1;
    while i < v
        invariant
            1 <= i,
            m >= 2,
            v == size,
            v == proof@.len(),
            v == challenges@.len(),
            table@.len() == pow2(size as nat),
            m == field.modulus(),
            transcript_consistent(proof@, size, sum, m),
            forall|k: int| 1 <= k < i ==> (#[trigger] proof@[k]).challenge == challenges@[k - 1],
        decreases v - i,
    {
        if proof[i].challenge != challenges[i - 1] {
            assert(!challenges_recorded(proof@, challenges@));
            return Ok(false);
        }
        i = i + 1;
    }
    let claim = if v == 0 {
        sum
    } else {
        eval_line(field, proof[v - 1].e0, proof[v - 1].e1, challenges[v - 1])
    };
    proof {
        lemma_mod_bound(mle_sum(table@, challenges@), m);
    }
    match mle_eval(field, table, challenges) {
        Err(e) => Err(e),
        Ok(value) => Ok(claim == value),
    }
}

/// The full check of a transcript whose challenges are derived: each round's
/// challenge is asked of `next`, which is handed the rounds up to that one, as
/// the prover's was. The transcript is then checked against itself, against
/// those challenges, and against the extension of `table` at the point that
/// they make.
///
/// A table that does not fit `size` is an error. A transcript of another
/// length than `size` is rejected before anything is asked.
pub fn verify_with<F: Fn(&[Round]) -> u64>(
    field: &Field,
    proof: &[Round],
    size: u64,
    sum: u64,
    next: F,
    table: &[u64],
) -> (verdict: Result<bool, SumcheckError>)
    requires
        forall|t: &[Round]| 1 <= t@.len() <= proof@.len() ==> call_requires(next, (t,)),
    ensures
        !is_power_of_two(table@.len()) ==> verdict == Err::<bool, SumcheckError>(
            SumcheckError::TableNotPowerOfTwo,
        ),
        is_power_of_two(table@.len()) && table@.len() != pow2(size as nat) ==> verdict == Err::<
            bool,
            SumcheckError,
        >(SumcheckError::DimensionMismatch),
        table@.len() == pow2(size as nat) && proof@.len() != size ==> verdict == Ok::<
            bool,
            SumcheckError,
        >(false),
        table@.len() == pow2(size as nat) && proof@.len() == size ==> exists|cs: Seq<u64>|
            {
                &&& cs.len() == size
                &&& derived(next, proof@, cs)
                &&& verdict == Ok::<bool, SumcheckError>(
                    #[trigger] oracle_accepts(
                        proof@,
                        size,
                        sum,
                        cs,
                        table@,
                        field.modulus() as int,
                    ),
                )
            },
{
    let v = match check_table(table.len(), size) {
        Err(e) => {
            return Err(e);
        },
        Ok(v) => v,
    };
    if proof.len() != v {
        return Ok(false);
    }
    let mut challenges: Vec<u64> = Vec::new();
    let mut i: usize = 0;
    while i < v
        invariant
            i <= v,
            v == proof@.len(),
            challenges@.len() == i,
            forall|t: &[Round]| 1 <= t@.len() <= proof@.len() ==> call_requires(next, (t,)),
            derived(next, proof@, challenges@),
        decreases v - i,
    {
        let ghost before = challenges@;
        let sent = slice_subrange(proof, 0, i + 1);
        let r = next(sent);
        challenges.push(r);
        proof {
            assert forall|k: int| 0 <= k < challenges@.len() implies answered(
                next,
                proof@.take(k + 1),
                #[trigger] challenges@[k],
            ) by {
                if k < i {
                    assert(answered(next, proof@.take(k + 1), before[k]));
                } else {
                    assert(sent@ =~= proof@.take(k + 1));
                }
            }
        }
        i = i + 1;
    }
    verify_with_oracle(field, proof, size, sum, challenges.as_slice(), table)
}

} // verus!
