//! Why a false claim is hard to get accepted: what can be said of it without
//! speaking of chance.
//!
//! If the full check accepts a transcript for a sum that is not the table's,
//! then in some round the prover's line is not the table's line and yet both
//! take the same value at the round's challenge. Two different lines meet in
//! at most one point of the field, so in each round at most one of the `p`
//! possible challenges can do that.

use crate::mle::mle;
use crate::modular::{
    lemma_congruent_add, lemma_congruent_mul, lemma_congruent_sub, lemma_prime_divides_product,
};
use crate::prime::is_prime_spec;
use crate::sumcheck::{
    final_claim, lemma_mle_of_one, lemma_round_sums_total, lemma_running_sum, lemma_stage_len,
    lemma_stage_mle, line_at, oracle_accepts, round_consistent, round_e0, round_e1, stage_table,
    table_sum, Round,
};
use vstd::arithmetic::div_mod::{lemma_mod_twice, lemma_small_mod, lemma_sub_mod_noop};
use vstd::arithmetic::power2::{lemma2_to64, pow2};
use vstd::prelude::*;

verus! {

/// The round's two sums are, modulo `p`, those of the table `t`.
pub open spec fn same_line(round: Round, t: Seq<u64>, p: int) -> bool {
    (round.e0 as int) % p == round_e0(t, p) && (round.e1 as int) % p == round_e1(t, p)
}

/// Round `i` is lucky for the prover: its line is not the line of the table
/// as the challenges `cs` have folded it so far, but the two take the same
/// value at the round's challenge.
pub open spec fn lucky_round(proof: Seq<Round>, cs: Seq<u64>, f: Seq<u64>, i: int, p: int) -> bool {
    let t = stage_table(f, cs, i as nat, p);
    &&& !same_line(proof[i], t, p)
    &&& line_at(proof[i].e0 as int, proof[i].e1 as int, cs[i] as int, p) == line_at(
        round_e0(t, p),
        round_e1(t, p),
        cs[i] as int,
        p,
    )
}

/// What the verifier holds to be the sum of the table after `i` rounds.
pub open spec fn claim_at(proof: Seq<Round>, sum: u64, cs: Seq<u64>, i: int, p: int) -> int {
    if i == 0 {
        sum as int
    } else {
        line_at(proof[i - 1].e0 as int, proof[i - 1].e1 as int, cs[i - 1] as int, p)
    }
}

/// As long as no round has been lucky, a false claim stays false: after `i`
/// rounds the verifier's claim is still not the sum of the folded table.
proof fn lemma_claim_stays_false(
    proof: Seq<Round>,
    sum: u64,
    cs: Seq<u64>,
    f: Seq<u64>,
    p: int,
    i: nat,
)
    requires
        0 < p <= u64::MAX,
        f.len() == pow2(cs.len()),
        cs.len() <= u64::MAX,
        oracle_accepts(proof, cs.len() as u64, sum, cs, f, p),
        sum != table_sum(f) % p,
        i <= cs.len(),
        forall|j: int| 0 <= j < i ==> !lucky_round(proof, cs, f, j, p),
    ensures
        claim_at(proof, sum, cs, i as int, p) != table_sum(stage_table(f, cs, i, p)) % p,
    decreases i,
{
    if i > 0 {
        let k = (i - 1) as nat;
        let t = stage_table(f, cs, k, p);
        lemma_claim_stays_false(proof, sum, cs, f, p, k);
        assert(round_consistent(proof, k as int, sum, p));
        assert(proof[k as int].sum == claim_at(proof, sum, cs, k as int, p)) by {
            if k > 0 {
                assert(proof[k as int].challenge == cs[k - 1]);
            }
        }
        lemma_round_sums_total(t, p);
        if same_line(proof[k as int], t, p) {
            lemma_mod_twice(table_sum(t.take(t.len() as int / 2)), p);
            lemma_mod_twice(table_sum(t.skip(t.len() as int / 2)), p);
            lemma_congruent_add(
                proof[k as int].e0 as int,
                round_e0(t, p),
                proof[k as int].e1 as int,
                round_e1(t, p),
                p,
            );
        }
        assert(!lucky_round(proof, cs, f, k as int, p));
        lemma_running_sum(f, sum, cs, i, p, cs.len());
    }
}

/// If the full check accepts a claim that is not the table's sum, then some
/// round was lucky for the prover.
pub proof fn lemma_false_claim_needs_luck(
    proof: Seq<Round>,
    sum: u64,
    cs: Seq<u64>,
    f: Seq<u64>,
    p: int,
)
    requires
        0 < p <= u64::MAX,
        f.len() == pow2(cs.len()),
        cs.len() <= u64::MAX,
        oracle_accepts(proof, cs.len() as u64, sum, cs, f, p),
        sum != table_sum(f) % p,
    ensures
        exists|i: int| 0 <= i < cs.len() && lucky_round(proof, cs, f, i, p),
{
    let v = cs.len();
    if forall|j: int| 0 <= j < v ==> !lucky_round(proof, cs, f, j, p) {
        lemma_claim_stays_false(proof, sum, cs, f, p, v);
        lemma_last_table(f, cs, p);
        assert(final_claim(proof, sum, cs, p) == claim_at(proof, sum, cs, v as int, p));
        assert(false);
    }
}

/// The table that is left when every variable is set is the extension of the
/// first table at the challenges.
proof fn lemma_last_table(f: Seq<u64>, cs: Seq<u64>, p: int)
    requires
        0 < p <= u64::MAX,
        f.len() == pow2(cs.len()),
    ensures
        mle(f, cs, p) == table_sum(stage_table(f, cs, cs.len(), p)) % p,
{
    let v = cs.len();
    lemma_stage_mle(f, cs, v, p);
    lemma_stage_len(f, cs, v, p, v);
    lemma2_to64();
    lemma_mle_of_one(stage_table(f, cs, v, p), cs.skip(v as int), p);
}

/// Two lines that take the same value modulo a prime at two points that
/// differ modulo the prime are the same line modulo the prime.
pub proof fn lemma_lines_meet_once(a0: int, a1: int, b0: int, b1: int, r: int, s: int, p: int)
    requires
        p > 0,
        is_prime_spec(p as nat),
        r % p != s % p,
        line_at(a0, a1, r, p) == line_at(b0, b1, r, p),
        line_at(a0, a1, s, p) == line_at(b0, b1, s, p),
    ensures
        a0 % p == b0 % p,
        a1 % p == b1 % p,
{
    let d0 = a0 - b0;
    let d1 = (a1 - a0) - (b1 - b0);
    lemma_small_mod(0, p as nat);
    // the difference of the lines vanishes at r and at s
    let at_r = b0 + r * (b1 - b0);
    lemma_congruent_sub(a0 + r * (a1 - a0), at_r, at_r, at_r, p);
    assert((a0 + r * (a1 - a0)) - (b0 + r * (b1 - b0)) == d0 + r * d1) by (nonlinear_arith)
        requires
            d0 == a0 - b0,
            d1 == (a1 - a0) - (b1 - b0),
    ;
    let at_s = b0 + s * (b1 - b0);
    lemma_congruent_sub(a0 + s * (a1 - a0), at_s, at_s, at_s, p);
    assert((a0 + s * (a1 - a0)) - (b0 + s * (b1 - b0)) == d0 + s * d1) by (nonlinear_arith)
        requires
            d0 == a0 - b0,
            d1 == (a1 - a0) - (b1 - b0),
    ;
    assert((d0 + r * d1) % p == 0);
    assert((d0 + s * d1) % p == 0);
    // so (r - s) * d1 vanishes, and with it d1
    lemma_congruent_sub(d0 + r * d1, 0, d0 + s * d1, 0, p);
    assert((d0 + r * d1) - (d0 + s * d1) == (r - s) * d1) by (nonlinear_arith);
    lemma_sub_mod_noop(r, s, p);
    assert((r - s) % p != 0) by {
        if (r - s) % p == 0 {
            lemma_congruent_add(r - s, 0, s, s, p);
        }
    }
    lemma_prime_divides_product(r - s, d1, p);
    assert(d1 % p == 0);
    // and then d0
    lemma_congruent_mul_zero(r, d1, p);
    lemma_congruent_sub(d0 + r * d1, 0, r * d1, 0, p);
    assert(d0 % p == 0);
    lemma_congruent_add(d0, 0, b0, b0, p);
    lemma_congruent_add(d1, 0, b1 - b0, b1 - b0, p);
    lemma_congruent_add(a1 - a0, b1 - b0, a0, b0, p);
}

/// A multiple of what vanishes modulo `p` vanishes modulo `p`.
proof fn lemma_congruent_mul_zero(r: int, d: int, p: int)
    requires
        p > 0,
        d % p == 0,
    ensures
        (r * d) % p == 0,
{
    lemma_small_mod(0, p as nat);
    lemma_congruent_mul(r, r, d, 0, p);
    assert(r * 0 == 0);
}

/// In a round where the prover's line is not the table's, at most one
/// challenge modulo the prime is lucky: two challenges at which the lines
/// meet are the same modulo the prime.
pub proof fn lemma_one_lucky_challenge(round: Round, t: Seq<u64>, r: u64, s: u64, p: int)
    requires
        p > 0,
        is_prime_spec(p as nat),
        !same_line(round, t, p),
        line_at(round.e0 as int, round.e1 as int, r as int, p) == line_at(
            round_e0(t, p),
            round_e1(t, p),
            r as int,
            p,
        ),
        line_at(round.e0 as int, round.e1 as int, s as int, p) == line_at(
            round_e0(t, p),
            round_e1(t, p),
            s as int,
            p,
        ),
    ensures
        (r as int) % p == (s as int) % p,
{
    if (r as int) % p != (s as int) % p {
        lemma_lines_meet_once(
            round.e0 as int,
            round.e1 as int,
            round_e0(t, p),
            round_e1(t, p),
            r as int,
            s as int,
            p,
        );
        lemma_mod_twice(table_sum(t.take(t.len() as int / 2)), p);
        lemma_mod_twice(table_sum(t.skip(t.len() as int / 2)), p);
    }
}

} // verus!
