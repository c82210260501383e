use rand::rngs::StdRng;
use rand::{Rng, SeedableRng};
use sum_check::field::Fp;
use sum_check::polynomial::multilinear_polynomial::MultilinearPolynomial;
use sum_check::polynomial::univariate_polynomial::{Polynomial, PolynomialTrait};
use sum_check::polynomial::{ConstructionError, MultivariatePolynomialOracle};
use sum_check::randomness_oracle::fiat_shamir::FiatShamir;
use sum_check::randomness_oracle::private_coin::PrivateCoinRandomnessOracle;
use sum_check::randomness_oracle::{ChallengeOracle, RandomnessOracle};
use sum_check::sum_check_protocol::prover::Prover;
use sum_check::sum_check_protocol::sum_check::{Proof, SumCheck};
use sum_check::sum_check_protocol::verifier_state::Verifier;

fn fq(v: u64) -> Fp {
    Fp::new(v, 5)
}

#[test]
fn multi_variate_evaluate() {
    let f = vec![fq(1), fq(2), fq(1), fq(4)];
    let polynomial = MultilinearPolynomial::new(2, f).unwrap();

    let r = vec![fq(1), fq(1)];
    let value = fq(4);
    assert_eq!(polynomial.evaluate(&r), value);
    assert_eq!(polynomial.evaluate_cty11(&r), value);

    let r = vec![fq(4), fq(4)];
    let value = fq(2);
    assert_eq!(polynomial.evaluate(&r), value);
    assert_eq!(polynomial.evaluate_cty11(&r), value);

    let r = vec![fq(4), fq(3)];
    let value = fq(3);
    assert_eq!(polynomial.evaluate(&r), value);
    assert_eq!(polynomial.evaluate_cty11(&r), value);

    let r = vec![fq(0), fq(4)];
    let value = fq(0);
    assert_eq!(polynomial.evaluate(&r), value);
    assert_eq!(polynomial.evaluate_cty11(&r), value);

    let r = vec![fq(4), fq(2)];
    let value = fq(4);
    assert_eq!(polynomial.evaluate(&r), value);
    assert_eq!(polynomial.evaluate_cty11(&r), value);

    let mut rng = StdRng::from_seed([0; 32]);
    for _ in 0..100 {
        let r = vec![fq(rng.gen::<u64>()), fq(rng.gen::<u64>())];
        assert_eq!(polynomial.evaluate(&r), polynomial.evaluate_cty11(&r));
    }
}

#[test]
fn fix_variable() {
    let f = vec![fq(1), fq(2), fq(1), fq(4)];
    let polynomial = MultilinearPolynomial::new(2, f).unwrap();

    let mut rng = StdRng::from_seed([0; 32]);
    for _ in 0..100 {
        let r1 = fq(rng.gen::<u64>());
        let r2 = fq(rng.gen::<u64>());
        let fixed_polynomial = polynomial.fix_variable(r1);
        assert_eq!(
            fixed_polynomial.evaluate(&vec![r2]),
            polynomial.evaluate(&vec![r1, r2])
        );
    }
}

#[test]
fn sum_check_interactive() {
    let l = 2;
    let f = vec![fq(1), fq(2), fq(1), fq(4)];
    let polynomial = MultilinearPolynomial::new(2, f.clone()).unwrap();

    let mut prover = Prover::new(l, polynomial.duplicate());
    let expected_sum = f[0].add(f[1]).add(f[2]).add(f[3]);
    assert!(prover.sum() == expected_sum);

    let rand_oracle = ChallengeOracle::PrivateCoin(PrivateCoinRandomnessOracle::new(5));
    let mut ver = Verifier::new(l, polynomial.duplicate(), rand_oracle);

    let mut r: Option<Fp> = None;
    for round in 1..=l {
        println!("Round {}", round);
        let gi = prover.prove(round, r).unwrap();
        println!("Prover: g_{} = {:?}", round, gi.coeff());
        assert!(ver.verify(round, gi).unwrap());
        r = Some(ver.challenge(round));
        println!("Verifier: r_{} = {:?}", round, r.unwrap());
    }
    assert!(prover.current_round() == l);
    assert!(ver.current_round() == l);
}

#[test]
fn sum_check() {
    let l = 2;
    let f = vec![fq(1), fq(2), fq(1), fq(4)];
    let polynomial = MultilinearPolynomial::new(2, f.clone()).unwrap();

    let sc = SumCheck::new(l, polynomial);
    let expected_sum = f[0].add(f[1]).add(f[2]).add(f[3]);
    assert!(sc.sum() == expected_sum);

    let proof = sc.prove();
    assert!(sc.verify(proof));
}

// The claimed sum for the standard example is 1 + 2 + 1 + 4 = 8 = 3 mod 5,
// and the non-interactive round trip accepts.
#[test]
fn round_trip_claimed_sum() {
    let f = vec![fq(1), fq(2), fq(1), fq(4)];
    let polynomial = MultilinearPolynomial::new(2, f).unwrap();
    let sc = SumCheck::new(2, polynomial);
    assert_eq!(sc.sum(), fq(3));
    let proof = sc.prove();
    assert!(sc.verify(proof));
}

// Completeness over a larger field and more variables, with random tables.
#[test]
fn completeness_random_tables() {
    let p = 1000000007u64;
    let mut rng = StdRng::from_seed([7; 32]);
    for _ in 0..10 {
        let f: Vec<Fp> = (0..8).map(|_| Fp::new(rng.gen::<u64>(), p)).collect();
        let polynomial = MultilinearPolynomial::new(3, f).unwrap();
        let sc = SumCheck::new(3, polynomial);
        let proof = sc.prove();
        assert!(sc.verify(proof));
    }
}

// A zero-variable polynomial is a single value; the protocol has no rounds
// and the empty proof is accepted.
#[test]
fn zero_variables() {
    let polynomial = MultilinearPolynomial::new(0, vec![fq(3)]).unwrap();
    assert_eq!(polynomial.sum(), fq(3));
    assert_eq!(polynomial.evaluate(&vec![]), fq(3));
    let sc = SumCheck::new(0, polynomial);
    let proof = sc.prove();
    assert!(sc.verify(proof));
}

// Fold/evaluate consistency for three variables, fixing one variable at a
// time.
#[test]
fn fold_evaluate_three_variables() {
    let p = 97u64;
    let fe = |v: u64| Fp::new(v, p);
    let f: Vec<Fp> = vec![3, 1, 4, 1, 5, 9, 2, 6].into_iter().map(fe).collect();
    let polynomial = MultilinearPolynomial::new(3, f).unwrap();
    let x = fe(12);
    let a = fe(34);
    let b = fe(56);
    let once = polynomial.fix_variable(x);
    assert_eq!(once.evaluate(&vec![a, b]), polynomial.evaluate(&vec![x, a, b]));
    let twice = once.fix_variable(a);
    assert_eq!(twice.evaluate(&vec![b]), polynomial.evaluate(&vec![x, a, b]));
}

// Horner evaluation and the structural degree of univariate polynomials.
#[test]
fn univariate_evaluate_and_deg() {
    let p = 97u64;
    let fe = |v: u64| Fp::new(v, p);
    // 3 + 2 X + 5 X^2 at X = 4: 3 + 8 + 80 = 91
    let poly = Polynomial::new(vec![fe(3), fe(2), fe(5)]).unwrap();
    assert_eq!(poly.deg(), 2);
    assert_eq!(poly.evaluate(fe(4)), fe(91));
    // the structural degree counts a zero top coefficient
    let padded = Polynomial::new(vec![fe(3), fe(2), fe(0)]).unwrap();
    assert_eq!(padded.deg(), 2);
}

#[test]
fn construction_errors() {
    // table length not a power of two for the variable count
    assert_eq!(
        MultilinearPolynomial::new(2, vec![fq(1), fq(2), fq(3)]).unwrap_err(),
        ConstructionError::TableLength
    );
    // an empty coefficient sequence
    assert_eq!(
        Polynomial::new(vec![]).unwrap_err(),
        ConstructionError::EmptyCoefficients
    );
    // entries that do not share one modulus
    assert_eq!(
        MultilinearPolynomial::new(1, vec![fq(1), Fp::new(1, 7)]).unwrap_err(),
        ConstructionError::MixedModulus
    );
    assert_eq!(
        Polynomial::new(vec![fq(1), Fp::new(1, 7)]).unwrap_err(),
        ConstructionError::MixedModulus
    );
}

// Skipping ahead of current_round() + 1, or leaving [1, l], is a sequencing
// error for both parties, not a silent pass.
#[test]
fn sequencing_guard() {
    let f = vec![fq(1), fq(2), fq(1), fq(4)];
    let polynomial = MultilinearPolynomial::new(2, f).unwrap();

    let mut prover = Prover::new(2, polynomial.duplicate());
    assert!(prover.prove(2, Some(fq(1))).is_err());
    assert!(prover.prove(0, Some(fq(1))).is_err());
    assert!(prover.prove(3, Some(fq(1))).is_err());
    assert!(prover.prove(1, None).is_ok());
    assert!(prover.prove(1, Some(fq(1))).is_err());

    let oracle = ChallengeOracle::FiatShamir(FiatShamir::new(5));
    let mut ver = Verifier::new(2, polynomial.duplicate(), oracle);
    let g = Prover::gen_g(&polynomial);
    assert!(ver.verify(2, g).is_err());
    let g = Prover::gen_g(&polynomial);
    assert!(ver.verify(0, g).is_err());
    let g = Prover::gen_g(&polynomial);
    assert!(ver.verify(3, g).is_err());
    let g = Prover::gen_g(&polynomial);
    assert!(ver.verify(1, g).is_ok());
}

// A round message whose structural degree exceeds the oracle's bound is
// rejected at that round, leaving the verifier where it was.
#[test]
fn degree_enforcement() {
    let f = vec![fq(1), fq(2), fq(1), fq(4)];
    let polynomial = MultilinearPolynomial::new(2, f).unwrap();
    let oracle = ChallengeOracle::FiatShamir(FiatShamir::new(5));
    let mut ver = Verifier::new(2, polynomial.duplicate(), oracle);
    let too_wide = Polynomial::new(vec![fq(1), fq(2), fq(3)]).unwrap();
    assert_eq!(ver.verify(1, too_wide), Ok(false));
    assert_eq!(ver.current_round(), 0);

    // within the orchestrator: widen round 1 of a valid proof
    let sc = SumCheck::new(2, polynomial);
    let proof = sc.prove();
    let mut rounds: Vec<Polynomial> = Vec::new();
    for (i, g) in proof.0.iter().enumerate() {
        let mut coeffs = g.coeff().clone();
        if i == 0 {
            coeffs.push(fq(0));
        }
        rounds.push(Polynomial::new(coeffs).unwrap());
    }
    assert!(!sc.verify(Proof(rounds)));
}

fn tamper(sc: &SumCheck, original: &Proof, round: usize, coeff: usize, delta: u64, p: u64) -> bool {
    let mut rounds: Vec<Polynomial> = Vec::new();
    for (i, g) in original.0.iter().enumerate() {
        let mut coeffs = g.coeff().clone();
        if i == round {
            let old = coeffs[coeff];
            coeffs[coeff] = Fp::new(old.value.wrapping_add(delta) % p, p);
        }
        rounds.push(Polynomial::new(coeffs).unwrap());
    }
    sc.verify(Proof(rounds))
}

// Mutating any single coefficient in any round's message of a generated
// proof makes verification fail. A large field keeps the chance of an
// accidental re-acceptance negligible.
#[test]
fn tampering() {
    let p = 1000000007u64;
    let fe = |v: u64| Fp::new(v, p);
    let f: Vec<Fp> = vec![11, 22, 33, 44].into_iter().map(fe).collect();
    let polynomial = MultilinearPolynomial::new(2, f).unwrap();
    let sc = SumCheck::new(2, polynomial);
    let proof = sc.prove();
    assert!(sc.verify(Proof(proof.0.iter().map(|g| Polynomial::new(g.coeff().clone()).unwrap()).collect())));
    for round in 0..2 {
        for coeff in 0..2 {
            assert!(
                !tamper(&sc, &proof, round, coeff, 1, p),
                "tampering with round {} coefficient {} was not caught",
                round,
                coeff
            );
        }
    }
}

// Soundness spot-check over the field of order 5: perturb one table entry
// while keeping the claimed sum unchanged, and watch the verifier reject
// most forged transcripts.
#[test]
fn soundness_spot_check() {
    let base = [1u64, 2, 1, 4];
    let truth = MultilinearPolynomial::new(2, base.iter().map(|&v| fq(v)).collect()).unwrap();
    let sc_true = SumCheck::new(2, truth);
    let mut total = 0;
    let mut rejected = 0;
    for entry in 0..4 {
        for delta in 1..5u64 {
            // shift one entry up and its neighbour down: the sum is kept
            let mut forged = base;
            forged[entry] = (forged[entry] + delta) % 5;
            forged[(entry + 1) % 4] = (forged[(entry + 1) % 4] + 5 - delta) % 5;
            let fake = MultilinearPolynomial::new(2, forged.iter().map(|&v| fq(v)).collect())
                .unwrap();
            let forged_proof = SumCheck::new(2, fake).prove();
            total += 1;
            if !sc_true.verify(forged_proof) {
                rejected += 1;
            }
        }
    }
    println!("rejected {} of {} forged transcripts", rejected, total);
    assert!(rejected * 2 >= total);
}

// The Fiat-Shamir chain is deterministic: two independently constructed
// oracles derive the same challenges from the same transcript, the state
// advances on every call, and the digest really mixes its input (a chain
// that handed its input bytes back unchanged would return 0 here).
#[test]
fn fiat_shamir_chain() {
    let p = 2305843009213693951u64;
    let fe = |v: u64| Fp::new(v, p);
    let mut a = FiatShamir::new(p);
    let mut b = FiatShamir::new(p);
    let input = vec![fe(17), fe(23)];
    let r1a = a.next_random(&input);
    let r1b = b.next_random(&input);
    assert_eq!(r1a, r1b);
    assert_ne!(r1a.value, 0);
    let r2a = a.next_random(&input);
    assert_ne!(r1a, r2a);
    let r2b = b.next_random(&input);
    assert_eq!(r2a, r2b);
    // a diverging transcript diverges
    let mut c = FiatShamir::new(p);
    let r1c = c.next_random(&vec![fe(18), fe(23)]);
    assert_ne!(r1a, r1c);
}

// The oracle view of a multilinear polynomial: every variable has degree 1.
#[test]
fn oracle_degree_bounds() {
    let f = vec![fq(1), fq(2), fq(1), fq(4)];
    let polynomial = MultilinearPolynomial::new(2, f).unwrap();
    assert_eq!(polynomial.deg(1), 1);
    assert_eq!(polynomial.deg(2), 1);
}

// Both oracle variants are usable through the RandomnessOracle capability.
#[test]
fn randomness_oracle_dispatch() {
    let input = vec![fq(1), fq(2)];
    let mut fs = FiatShamir::new(5);
    let a = RandomnessOracle::next_random(&mut fs, &input);
    assert!(a.value < 5 && a.modulus == 5);
    let mut pc = PrivateCoinRandomnessOracle::new(5);
    let b = RandomnessOracle::next_random(&mut pc, &input);
    assert!(b.value < 5 && b.modulus == 5);
    let mut both = ChallengeOracle::FiatShamir(FiatShamir::new(5));
    let c = RandomnessOracle::next_random(&mut both, &input);
    assert_eq!(a, c);
}

// Proof generation is a pure function of the polynomial: two runs emit the
// same messages.
#[test]
fn proof_generation_deterministic() {
    let f = vec![fq(1), fq(2), fq(1), fq(4)];
    let sc = SumCheck::new(2, MultilinearPolynomial::new(2, f).unwrap());
    let p1 = sc.prove();
    let p2 = sc.prove();
    assert_eq!(p1.0.len(), p2.0.len());
    for (a, b) in p1.0.iter().zip(p2.0.iter()) {
        assert_eq!(a.coeff(), b.coeff());
    }
}
