use sumcheck::error::SumcheckError;
use sumcheck::field::Field;
use sumcheck::mle::mle_eval;
use sumcheck::sumcheck::{
    eval_line, fiat_shamir, fold, prove_sumcheck, prove_with, prove_with_challenges, round_sums,
    verify_sumcheck, verify_with, verify_with_oracle, Round,
};

#[test]
fn test_sumcheck_1() {
    let field = Field::new(16411).unwrap();
    // evaluations for (x, y) = (0, 0), (0, 1), (1, 0), (1, 1)
    let mut points = vec![3, 1, 11, 7];
    let size = 2;

    let sum = 22;

    let proof = prove_sumcheck(&field, &mut points, size, sum).unwrap();
    println!("proof: {:?}", proof);

    let result = verify_sumcheck(&field, proof, size, sum);
    assert!(result);
}

#[test]
fn test_sumcheck_2() {
    let field = Field::new(16411).unwrap();
    let mut points = vec![3, 1, 11, 7, 15, 5718, 1121, 7123];
    let size = 3;

    let sum = 13999;

    let proof = prove_sumcheck(&field, &mut points, size, sum).unwrap();
    println!("proof: {:?}", proof);

    let result = verify_sumcheck(&field, proof, size, sum);
    assert!(result);
}

#[test]
fn golden_table_gives_three_rounds() {
    let field = Field::new(16411).unwrap();
    let mut points = vec![3, 1, 11, 7, 15, 5718, 1121, 7123];
    let proof = prove_sumcheck(&field, &mut points, 3, 13999).unwrap();
    assert_eq!(proof.len(), 3);
    assert_eq!(proof[0].sum, 13999);
    assert_eq!(proof[0].challenge, 0);
    assert_eq!(proof[0].e0, 22);
    assert_eq!(proof[0].e1, 13977);
    assert_eq!(field.add(proof[1].e0, proof[1].e1), proof[1].sum);
    assert_eq!(eval_line(&field, proof[0].e0, proof[0].e1, proof[1].challenge), proof[1].sum);
    assert_eq!(eval_line(&field, proof[1].e0, proof[1].e1, proof[2].challenge), proof[2].sum);
    // the upper halves stay where the rounds left them
    assert_eq!(points[4..], [15, 5718, 1121, 7123]);
}

#[test]
fn golden_table_with_any_other_sum_is_refused() {
    let field = Field::new(16411).unwrap();
    let table = vec![3, 1, 11, 7, 15, 5718, 1121, 7123];
    for sum in (0..16411u64).step_by(97).chain([13998, 14000, 13999 + 16411, u64::MAX]) {
        if sum == 13999 {
            continue;
        }
        let mut points = table.clone();
        assert_eq!(
            prove_sumcheck(&field, &mut points, 3, sum),
            Err(SumcheckError::SumMismatch)
        );
        assert_eq!(points, table);
    }
    // and the proof of the true sum does not pass for another claim
    let mut points = table.clone();
    let proof = prove_sumcheck(&field, &mut points, 3, 13999).unwrap();
    assert!(!verify_sumcheck(&field, proof.clone(), 3, 14000));
    assert!(!verify_sumcheck(&field, proof.clone(), 3, 0));
    assert!(verify_sumcheck(&field, proof, 3, 13999));
}

#[test]
fn transcript_with_given_challenges() {
    let field = Field::new(16411).unwrap();
    let table = vec![3, 1, 11, 7, 15, 5718, 1121, 7123];
    let challenges = [5, 7, 11];
    let mut points = table.clone();
    let proof = prove_with_challenges(&field, &mut points, 3, 13999, &challenges).unwrap();
    assert_eq!(
        proof,
        vec![
            Round { e0: 22, e1: 13977, sum: 13999, challenge: 0 },
            Round { e0: 12238, e1: 8326, sum: 4153, challenge: 5 },
            Round { e0: 5727, e1: 11949, sum: 1265, challenge: 7 },
        ]
    );
    assert_eq!(points, vec![8525, 11949, 5561, 2765, 15, 5718, 1121, 7123]);
    assert_eq!(mle_eval(&field, &table, &challenges), Ok(8525));
    assert!(verify_sumcheck(&field, proof.clone(), 3, 13999));
    assert_eq!(verify_with_oracle(&field, &proof, 3, 13999, &challenges, &table), Ok(true));
}

#[test]
fn transcript_of_two_rounds() {
    let field = Field::new(16411).unwrap();
    let mut points = vec![3, 1, 11, 7];
    let proof = prove_with_challenges(&field, &mut points, 2, 22, &[2, 3]).unwrap();
    assert_eq!(
        proof,
        vec![
            Round { e0: 4, e1: 18, sum: 22, challenge: 0 },
            Round { e0: 19, e1: 13, sum: 32, challenge: 2 },
        ]
    );
    assert_eq!(points, vec![1, 13, 11, 7]);
}

#[test]
fn honest_proofs_pass_the_full_check() {
    let field = Field::new(16411).unwrap();
    let mut state: u64 = 2024;
    for v in 1..=6u64 {
        for _ in 0..20 {
            let mut table = Vec::new();
            for _ in 0..(1usize << v) {
                state = state.wrapping_mul(6364136223846793005).wrapping_add(1442695040888963407);
                table.push((state >> 33) % 16411);
            }
            let mut challenges = Vec::new();
            for _ in 0..v {
                challenges.push(fiat_shamir(&field, vec![]));
            }
            let sum = table.iter().sum::<u64>() % 16411;
            let mut points = table.clone();
            let proof = prove_with_challenges(&field, &mut points, v, sum, &challenges).unwrap();
            assert_eq!(proof.len() as u64, v);
            assert_eq!(Ok(points[0]), mle_eval(&field, &table, &challenges));
            assert!(verify_sumcheck(&field, proof.clone(), v, sum));
            assert_eq!(verify_with_oracle(&field, &proof, v, sum, &challenges, &table), Ok(true));
        }
    }
}

#[test]
fn no_variables_no_rounds() {
    let field = Field::new(16411).unwrap();
    let mut points = vec![42];
    let proof = prove_sumcheck(&field, &mut points, 0, 42).unwrap();
    assert!(proof.is_empty());
    assert_eq!(points, vec![42]);
    assert!(verify_sumcheck(&field, proof.clone(), 0, 42));
    assert_eq!(verify_with_oracle(&field, &proof, 0, 42, &[], &[42]), Ok(true));
    assert_eq!(verify_with_oracle(&field, &proof, 0, 41, &[], &[42]), Ok(false));
    let mut points = vec![42];
    assert_eq!(prove_sumcheck(&field, &mut points, 0, 41), Err(SumcheckError::SumMismatch));
    let mut points = vec![16411 + 42];
    assert_eq!(prove_with_challenges(&field, &mut points, 0, 42, &[]), Ok(vec![]));
}

#[test]
fn one_variable_one_round() {
    let field = Field::new(16411).unwrap();
    let table = vec![16000, 500];
    let mut points = table.clone();
    let proof = prove_with_challenges(&field, &mut points, 1, 89, &[10]).unwrap();
    assert_eq!(proof, vec![Round { e0: 16000, e1: 500, sum: 89, challenge: 0 }]);
    // 16000 + 10 * (500 - 16000) mod 16411
    assert_eq!(points, vec![8699, 500]);
    assert!(verify_sumcheck(&field, proof.clone(), 1, 89));
    assert_eq!(verify_with_oracle(&field, &proof, 1, 89, &[10], &table), Ok(true));
    // the last challenge is the verifier's own: an honest proof meets any
    assert_eq!(verify_with_oracle(&field, &proof, 1, 89, &[11], &table), Ok(true));
    assert_eq!(verify_with_oracle(&field, &proof, 1, 89, &[10], &[16000, 501]), Ok(false));
    let mut points = table.clone();
    let proof = prove_sumcheck(&field, &mut points, 1, 89).unwrap();
    assert_eq!(proof.len(), 1);
    assert!(verify_sumcheck(&field, proof, 1, 89));
}

#[test]
fn folding_sets_the_first_variable() {
    let field = Field::new(16411).unwrap();
    let table = vec![3, 1, 11, 7];
    let mut points = table.clone();
    fold(&field, &mut points, 4, 2);
    assert_eq!(points, vec![19, 13, 11, 7]);
    let mut points = table.clone();
    fold(&field, &mut points, 4, 5);
    assert_eq!(mle_eval(&field, &points[..2], &[9]), Ok(16346));
    assert_eq!(mle_eval(&field, &table, &[5, 9]), Ok(16346));
    // and at sampled points, for a larger table
    let table = vec![3, 1, 11, 7, 15, 5718, 1121, 7123];
    let mut state: u64 = 7;
    for _ in 0..50 {
        let mut draw = [0u64; 3];
        for d in draw.iter_mut() {
            state = state.wrapping_mul(6364136223846793005).wrapping_add(1442695040888963407);
            *d = (state >> 33) % 16411;
        }
        let mut points = table.clone();
        fold(&field, &mut points, 8, draw[0]);
        assert_eq!(
            mle_eval(&field, &points[..4], &draw[1..]),
            mle_eval(&field, &table, &draw)
        );
    }
}

#[test]
fn fold_leaves_the_rest_of_the_buffer() {
    let field = Field::new(16411).unwrap();
    let mut points = vec![3, 1, 11, 7, 100, 200];
    fold(&field, &mut points, 4, 2);
    assert_eq!(points, vec![19, 13, 11, 7, 100, 200]);
    fold(&field, &mut points, 2, 16410);
    // 19 - (13 - 19) = 25
    assert_eq!(points, vec![25, 13, 11, 7, 100, 200]);
    fold(&field, &mut points, 0, 5);
    assert_eq!(points, vec![25, 13, 11, 7, 100, 200]);
}

#[test]
fn round_sums_and_the_line_through_them() {
    let field = Field::new(16411).unwrap();
    assert_eq!(round_sums(&field, &[3, 1, 11, 7], 4), (4, 18));
    assert_eq!(round_sums(&field, &[3, 1, 11, 7], 2), (3, 1));
    assert_eq!(round_sums(&field, &[16410, 16410, 5, 16411], 4), (16409, 5));
    assert_eq!(eval_line(&field, 4, 18, 0), 4);
    assert_eq!(eval_line(&field, 4, 18, 1), 18);
    assert_eq!(eval_line(&field, 4, 18, 2), 32);
    assert_eq!(eval_line(&field, 18, 4, 2), 16401);
    assert_eq!(eval_line(&field, 22, 13977, 5), 4153);
}

#[test]
fn prover_rejects_tables_that_do_not_fit() {
    let field = Field::new(16411).unwrap();
    let mut three = vec![1, 2, 3];
    assert_eq!(
        prove_sumcheck(&field, &mut three, 2, 6),
        Err(SumcheckError::TableNotPowerOfTwo)
    );
    let mut none: Vec<u64> = vec![];
    assert_eq!(prove_sumcheck(&field, &mut none, 0, 0), Err(SumcheckError::TableNotPowerOfTwo));
    let mut four = vec![1, 2, 3, 4];
    assert_eq!(prove_sumcheck(&field, &mut four, 3, 10), Err(SumcheckError::DimensionMismatch));
    assert_eq!(prove_sumcheck(&field, &mut four, 1, 10), Err(SumcheckError::DimensionMismatch));
    assert_eq!(prove_sumcheck(&field, &mut four, 64, 10), Err(SumcheckError::DimensionMismatch));
    assert_eq!(
        prove_sumcheck(&field, &mut four, u64::MAX, 10),
        Err(SumcheckError::DimensionMismatch)
    );
    assert_eq!(
        prove_with_challenges(&field, &mut four, 2, 10, &[1]),
        Err(SumcheckError::DimensionMismatch)
    );
    assert_eq!(
        prove_with_challenges(&field, &mut four, 2, 10, &[1, 2, 3]),
        Err(SumcheckError::DimensionMismatch)
    );
    assert_eq!(
        prove_with_challenges(&field, &mut four, 2, 11, &[1, 2]),
        Err(SumcheckError::SumMismatch)
    );
    assert_eq!(four, vec![1, 2, 3, 4]);
}

#[test]
fn verifier_rejects_each_broken_rule() {
    let field = Field::new(16411).unwrap();
    let good = vec![
        Round { e0: 22, e1: 13977, sum: 13999, challenge: 0 },
        Round { e0: 12238, e1: 8326, sum: 4153, challenge: 5 },
        Round { e0: 5727, e1: 11949, sum: 1265, challenge: 7 },
    ];
    assert!(verify_sumcheck(&field, good.clone(), 3, 13999));
    // the number of rounds
    assert!(!verify_sumcheck(&field, good.clone(), 2, 13999));
    assert!(!verify_sumcheck(&field, good.clone(), 4, 13999));
    assert!(!verify_sumcheck(&field, good[..2].to_vec(), 3, 13999));
    assert!(!verify_sumcheck(&field, vec![], 3, 13999));
    // the claimed sum
    assert!(!verify_sumcheck(&field, good.clone(), 3, 13998));
    // the first challenge
    let mut bad = good.clone();
    bad[0].challenge = 1;
    assert!(!verify_sumcheck(&field, bad, 3, 13999));
    // the two halves of a round
    for i in 0..3 {
        let mut bad = good.clone();
        bad[i].e0 += 1;
        assert!(!verify_sumcheck(&field, bad, 3, 13999));
        let mut bad = good.clone();
        bad[i].e1 += 1;
        assert!(!verify_sumcheck(&field, bad, 3, 13999));
    }
    // the line of the round before
    let mut bad = good.clone();
    bad[1].challenge = 6;
    assert!(!verify_sumcheck(&field, bad, 3, 13999));
    let mut bad = good.clone();
    bad[2].sum = 1266;
    assert!(!verify_sumcheck(&field, bad, 3, 13999));
    // a sum that is not reduced
    let mut bad = good.clone();
    bad[1].sum += 16411;
    assert!(!verify_sumcheck(&field, bad, 3, 13999));
}

#[test]
fn full_check_rejects_what_the_table_does_not_bear() {
    let field = Field::new(16411).unwrap();
    let table = vec![3, 1, 11, 7, 15, 5718, 1121, 7123];
    let good = vec![
        Round { e0: 22, e1: 13977, sum: 13999, challenge: 0 },
        Round { e0: 12238, e1: 8326, sum: 4153, challenge: 5 },
        Round { e0: 5727, e1: 11949, sum: 1265, challenge: 7 },
    ];
    assert_eq!(verify_with_oracle(&field, &good, 3, 13999, &[5, 7, 11], &table), Ok(true));
    // the last challenge is recorded nowhere: an honest proof meets any
    assert_eq!(verify_with_oracle(&field, &good, 3, 13999, &[5, 7, 12], &table), Ok(true));
    // other recorded challenges, another table, another claim
    assert_eq!(verify_with_oracle(&field, &good, 3, 13999, &[6, 7, 11], &table), Ok(false));
    assert_eq!(verify_with_oracle(&field, &good, 3, 13999, &[5, 8, 11], &table), Ok(false));
    let mut other = table.clone();
    other[7] += 1;
    assert_eq!(verify_with_oracle(&field, &good, 3, 13999, &[5, 7, 11], &other), Ok(false));
    assert_eq!(verify_with_oracle(&field, &good, 3, 13998, &[5, 7, 11], &table), Ok(false));
    assert_eq!(verify_with_oracle(&field, &good[..2], 3, 13999, &[5, 7, 11], &table), Ok(false));
    // what does not fit is an error
    assert_eq!(
        verify_with_oracle(&field, &good, 3, 13999, &[5, 7, 11], &table[..7]),
        Err(SumcheckError::TableNotPowerOfTwo)
    );
    assert_eq!(
        verify_with_oracle(&field, &good, 3, 13999, &[5, 7, 11], &table[..4]),
        Err(SumcheckError::DimensionMismatch)
    );
    assert_eq!(
        verify_with_oracle(&field, &good, 3, 13999, &[5, 7], &table),
        Err(SumcheckError::DimensionMismatch)
    );
    assert_eq!(
        verify_with_oracle(&field, &good, 2, 13999, &[5, 7], &table),
        Err(SumcheckError::DimensionMismatch)
    );
}

#[test]
fn a_consistent_transcript_can_claim_a_false_sum() {
    // The check of the transcript alone accepts a lie; the full check does not.
    let field = Field::new(16411).unwrap();
    let table = vec![3, 1, 11, 7];
    let challenges = [2, 3];
    let lie = vec![
        Round { e0: 5, e1: 18, sum: 23, challenge: 0 },
        // 5 + 2 * (18 - 5) = 31, and 18 + 13 = 31
        Round { e0: 18, e1: 13, sum: 31, challenge: 2 },
    ];
    assert!(verify_sumcheck(&field, lie.clone(), 2, 23));
    assert_eq!(verify_with_oracle(&field, &lie, 2, 23, &challenges, &table), Ok(false));
}

#[test]
fn a_false_sum_survives_only_a_lucky_challenge() {
    let field = Field::new(16411).unwrap();
    let p = 16411u64;
    let v = 3u64;
    let trials = 400u64;
    let mut state: u64 = 99;
    let mut accepted = 0u64;
    let mut consistent = 0u64;
    for trial in 0..trials {
        let mut table = Vec::new();
        for _ in 0..8 {
            state = state.wrapping_mul(6364136223846793005).wrapping_add(1442695040888963407);
            table.push((state >> 33) % p);
        }
        let truth = table.iter().sum::<u64>() % p;
        let claimed = (truth + 1 + trial % (p - 1)) % p;
        assert_ne!(claimed, truth);
        // the prover bends the lower sum of each round to meet the claim
        let mut points = table.clone();
        let mut len = 8usize;
        let mut running = claimed;
        let mut last = 0u64;
        let mut proof = Vec::new();
        let mut challenges = Vec::new();
        for _ in 0..v {
            let (_, e1) = round_sums(&field, &points, len);
            let e0 = field.sub(running, e1);
            proof.push(Round { e0, e1, sum: running, challenge: last });
            let r = fiat_shamir(&field, vec![e0, field.sub(e1, e0)]);
            fold(&field, &mut points, len, r);
            running = eval_line(&field, e0, e1, r);
            last = r;
            len /= 2;
            challenges.push(r);
        }
        if verify_sumcheck(&field, proof.clone(), v, claimed) {
            consistent += 1;
        }
        if verify_with_oracle(&field, &proof, v, claimed, &challenges, &table) == Ok(true) {
            accepted += 1;
            assert!(challenges.contains(&1));
        }
    }
    assert_eq!(consistent, trials);
    // the chance of a wrong acceptance is at most v / p in each trial
    assert!(accepted <= 3);
}

#[test]
fn a_false_sum_survives_the_challenge_one() {
    let field = Field::new(16411).unwrap();
    let table = vec![3, 1, 11, 7];
    // the lie about the lower sum vanishes from the line at 1
    let lie = vec![
        Round { e0: 5, e1: 18, sum: 23, challenge: 0 },
        Round { e0: 11, e1: 7, sum: 18, challenge: 1 },
    ];
    assert_eq!(verify_with_oracle(&field, &lie, 2, 23, &[1, 9], &table), Ok(true));
}

#[test]
fn challenges_are_field_elements() {
    let field = Field::new(5).unwrap();
    let mut seen = [false; 5];
    for _ in 0..1000 {
        let r = fiat_shamir(&field, vec![1, 2]);
        assert!(r < 5);
        seen[r as usize] = true;
    }
    assert!(seen.iter().all(|&s| s));
}

#[test]
fn drawn_challenges_are_recorded_below_the_modulus() {
    let field = Field::new(16411).unwrap();
    let table = vec![3, 1, 11, 7, 15, 5718, 1121, 7123];
    for _ in 0..50 {
        let mut points = table.clone();
        let proof = prove_sumcheck(&field, &mut points, 3, 13999).unwrap();
        let r1 = proof[1].challenge;
        let r2 = proof[2].challenge;
        assert!(r1 < 16411 && r2 < 16411);
        // the same rounds come out when the same challenges are supplied
        for r3 in [0u64, 1, 77] {
            let mut again = table.clone();
            let same = prove_with_challenges(&field, &mut again, 3, 13999, &[r1, r2, r3]).unwrap();
            assert_eq!(same, proof);
        }
    }
}

#[test]
fn challenges_can_be_derived_from_the_transcript() {
    let field = Field::new(16411).unwrap();
    let table = vec![3, 1, 11, 7, 15, 5718, 1121, 7123];
    // a stand-in for a hash of the transcript so far
    let digest = |rounds: &[Round]| -> u64 {
        let mut h: u64 = 13999;
        for round in rounds {
            for x in [round.e0, round.e1, round.sum, round.challenge] {
                h = (h * 31 + x + 1) % 16411;
            }
        }
        h
    };
    let mut points = table.clone();
    let proof = prove_with(&field, &mut points, 3, 13999, digest).unwrap();
    assert_eq!(proof.len(), 3);
    // the verifier derives the same challenges from what it was sent
    let challenges: Vec<u64> = (1..=3).map(|i| digest(&proof[..i])).collect();
    assert_eq!(proof[1].challenge, challenges[0]);
    assert_eq!(proof[2].challenge, challenges[1]);
    assert_eq!(verify_with_oracle(&field, &proof, 3, 13999, &challenges, &table), Ok(true));
    assert_eq!(Ok(points[0]), mle_eval(&field, &table, &challenges));
    // and the run is that of a prover who was handed them
    let mut again = table.clone();
    assert_eq!(
        prove_with_challenges(&field, &mut again, 3, 13999, &challenges),
        Ok(proof.clone())
    );
    assert_eq!(again, points);
    // a transcript that was tampered with derives other challenges
    let mut bent = proof.clone();
    bent[0].e0 += 1;
    assert_ne!(digest(&bent[..1]), challenges[0]);
    // the verifier that derives them itself
    assert_eq!(verify_with(&field, &proof, 3, 13999, digest, &table), Ok(true));
    assert_eq!(verify_with(&field, &bent, 3, 13999, digest, &table), Ok(false));
    assert_eq!(verify_with(&field, &proof, 3, 14000, digest, &table), Ok(false));
    assert_eq!(verify_with(&field, &proof[..2], 3, 13999, digest, &table), Ok(false));
    let mut other = table.clone();
    other[0] += 1;
    assert_eq!(verify_with(&field, &proof, 3, 13999, digest, &other), Ok(false));
    assert_eq!(
        verify_with(&field, &proof, 3, 13999, digest, &table[..7]),
        Err(SumcheckError::TableNotPowerOfTwo)
    );
    assert_eq!(
        verify_with(&field, &proof, 2, 13999, digest, &table),
        Err(SumcheckError::DimensionMismatch)
    );
    assert_eq!(verify_with(&field, &[], 0, 5, digest, &[5]), Ok(true));
}

#[test]
fn prove_with_asks_once_for_each_round() {
    let field = Field::new(16411).unwrap();
    let asked = std::cell::Cell::new(0u64);
    let mut points = vec![3, 1, 11, 7];
    let proof = prove_with(&field, &mut points, 2, 22, |rounds: &[Round]| {
        asked.set(asked.get() + 1);
        assert_eq!(rounds.len() as u64, asked.get());
        rounds.len() as u64 + 1
    })
    .unwrap();
    assert_eq!(asked.get(), 2);
    assert_eq!(
        proof,
        vec![
            Round { e0: 4, e1: 18, sum: 22, challenge: 0 },
            Round { e0: 19, e1: 13, sum: 32, challenge: 2 },
        ]
    );
    assert_eq!(points, vec![1, 13, 11, 7]);
    // nothing is asked where the claim is refused, or where there is no round
    let mut points = vec![3, 1, 11, 7];
    assert_eq!(
        prove_with(&field, &mut points, 2, 23, |_: &[Round]| panic!("asked")),
        Err(SumcheckError::SumMismatch)
    );
    let mut points = vec![5];
    assert_eq!(prove_with(&field, &mut points, 0, 5, |_: &[Round]| panic!("asked")), Ok(vec![]));
    let mut points = vec![1, 2, 3];
    assert_eq!(
        prove_with(&field, &mut points, 2, 6, |_: &[Round]| panic!("asked")),
        Err(SumcheckError::TableNotPowerOfTwo)
    );
}
