use sumcheck_fs::error::SumcheckError;
use sumcheck_fs::field::Fe;
use sumcheck_fs::interp::interpolate;
use sumcheck_fs::mle::MultilinearExtension;
use sumcheck_fs::protocol::{prove, verify, SumcheckProof};
use sumcheck_fs::transcript::{FsTranscript, TranscriptProtocol};
use sumcheck_fs::virtual_poly::{Term, VirtualPolynomial};

fn fe(x: u64) -> Fe {
    Fe::from_u64(x)
}

fn table(xs: &[u64]) -> Vec<Fe> {
    xs.iter().map(|x| fe(*x)).collect()
}

fn mle(n: usize, xs: &[u64]) -> MultilinearExtension {
    MultilinearExtension::new(n, table(xs)).unwrap()
}

/// f = A*B*E - C*E over two variables.
fn scenario_poly() -> (VirtualPolynomial, Fe) {
    let a = [3u64, 5, 7, 11];
    let b = [2u64, 4, 6, 8];
    let c = [1u64, 9, 2, 10];
    let e = [13u64, 17, 19, 23];
    let mut claim = Fe::zero();
    for i in 0..4 {
        let v = fe(a[i]).mul(fe(b[i])).mul(fe(e[i])).sub(fe(c[i]).mul(fe(e[i])));
        claim = claim.add(v);
    }
    let mles = vec![mle(2, &a), mle(2, &b), mle(2, &c), mle(2, &e)];
    let minus_one = Fe::zero().sub(Fe::one());
    let terms = vec![
        Term { coeff: Fe::one(), operands: vec![0, 1, 3] },
        Term { coeff: minus_one, operands: vec![2, 3] },
    ];
    (VirtualPolynomial::new(2, 2, mles, terms).unwrap(), claim)
}

#[test]
fn end_to_end_two_variables() {
    let (poly, claim) = scenario_poly();
    let degree = poly.degree();
    assert_eq!(degree, 3);
    let mut pt = FsTranscript::new("sumcheck test");
    let out = prove(claim, poly, &mut pt).unwrap();
    assert_eq!(out.proof.rounds.len(), 2);
    assert!(out.proof.rounds.iter().all(|g| g.len() == 4));

    let mut vt = FsTranscript::new("sumcheck test");
    let res = verify(claim, 2, degree, &out.proof, &mut vt).unwrap();
    assert!(res.accepted);
    assert_eq!(res.point, out.point);
    // The final value ties back to the operands' values at the point.
    let fe_ = &out.final_evals;
    let direct = fe_[0].mul(fe_[1]).mul(fe_[3]).sub(fe_[2].mul(fe_[3]));
    assert_eq!(res.expected, direct);

    let mut vt2 = FsTranscript::new("sumcheck test");
    let bumped = claim.add(Fe::one());
    let res2 = verify(bumped, 2, degree, &out.proof, &mut vt2).unwrap();
    assert!(!res2.accepted);
}

#[test]
fn flipped_evaluation_is_rejected() {
    let (poly, claim) = scenario_poly();
    let degree = poly.degree();
    let mut pt = FsTranscript::new("flip");
    let out = prove(claim, poly, &mut pt).unwrap();
    for r in 0..out.proof.rounds.len() {
        for j in 0..out.proof.rounds[r].len() {
            let mut rounds = out.proof.rounds.clone();
            rounds[r][j] = rounds[r][j].add(Fe::one());
            let bad = SumcheckProof { rounds };
            let mut vt = FsTranscript::new("flip");
            let res = verify(claim, 2, degree, &bad, &mut vt).unwrap();
            let final_ok = res.expected
                == out.final_evals[0].mul(out.final_evals[1]).mul(out.final_evals[3])
                    .sub(out.final_evals[2].mul(out.final_evals[3]));
            assert!(!(res.accepted && final_ok), "round {r} value {j}");
        }
    }
}

#[test]
fn transcripts_are_deterministic() {
    let mut t1 = FsTranscript::new("domain");
    let mut t2 = FsTranscript::new("domain");
    let mut c1 = Vec::new();
    let mut c2 = Vec::new();
    for i in 0..5u64 {
        t1.append_fe("msg", fe(i * 7 + 1));
        t2.append_fe("msg", fe(i * 7 + 1));
        c1.push(t1.challenge_fe("chal"));
        c2.push(t2.challenge_fe("chal"));
    }
    assert_eq!(c1, c2);
    let mut t3 = FsTranscript::new("domain");
    t3.append_fe("msg", fe(2));
    assert_ne!(t3.challenge_fe("chal"), c1[0]);
}

#[test]
fn fold_matches_direct_evaluation() {
    let m = mle(3, &[4, 8, 15, 16, 23, 42, 7, 99]);
    let c = fe(123456789);
    let folded = m.fold(c).unwrap();
    assert_eq!(folded.num_vars(), 2);
    let p = vec![fe(31337), fe(271828)];
    let full = vec![c, p[0], p[1]];
    assert_eq!(folded.evaluate(&p), m.evaluate(&full));
    // Entry 0 is (1 - c) * 4 + c * 23.
    let expect0 = Fe::one().sub(c).mul(fe(4)).add(c.mul(fe(23)));
    assert_eq!(folded.evals[0], expect0);
}

#[test]
fn fold_of_constant_is_empty_domain() {
    let m = mle(0, &[5]);
    assert_eq!(m.fold(fe(3)).unwrap_err(), SumcheckError::EmptyDomain);
}

#[test]
fn round_polynomial_has_bounded_degree() {
    let (poly, _) = scenario_poly();
    let d = poly.degree();
    let g = poly.round_polynomial(d + 1);
    assert_eq!(g.len(), d + 2);
    let first: Vec<Fe> = g[..d + 1].to_vec();
    let x = Fe::from_usize(d + 1);
    assert_eq!(interpolate(&first, x), g[d + 1]);
}

#[test]
fn round_values_sum_to_claim() {
    let (poly, claim) = scenario_poly();
    let g = poly.round_polynomial(poly.degree());
    assert_eq!(g[0].add(g[1]), claim);
}

#[test]
fn interpolation_of_line() {
    // g(x) = 3 + 2x, values at 0 and 1.
    let g = vec![fe(3), fe(5)];
    assert_eq!(interpolate(&g, fe(10)), fe(23));
}

#[test]
fn prover_errors() {
    let poly = VirtualPolynomial::new(0, 1, vec![mle(0, &[4])], vec![Term { coeff: Fe::one(), operands: vec![0] }]).unwrap();
    let mut t = FsTranscript::new("e");
    assert_eq!(prove(fe(4), poly, &mut t).unwrap_err(), SumcheckError::EmptyPolynomial);
    let poly = VirtualPolynomial::new(1, 1, vec![mle(1, &[4, 5])], vec![Term { coeff: Fe::one(), operands: vec![] }]).unwrap();
    let mut t = FsTranscript::new("e");
    assert_eq!(prove(fe(2), poly, &mut t).unwrap_err(), SumcheckError::DegreeMismatch);
    let ops = vec![0usize; 33];
    let poly = VirtualPolynomial::new(1, 1, vec![mle(1, &[4, 5])], vec![Term { coeff: Fe::one(), operands: ops }]).unwrap();
    let mut t = FsTranscript::new("e");
    assert_eq!(prove(fe(2), poly, &mut t).unwrap_err(), SumcheckError::DegreeMismatch);
}

#[test]
fn verifier_errors() {
    let (poly, claim) = scenario_poly();
    let mut pt = FsTranscript::new("v");
    let out = prove(claim, poly, &mut pt).unwrap();
    let mut t = FsTranscript::new("v");
    assert_eq!(verify(claim, 3, 3, &out.proof, &mut t).unwrap_err(), SumcheckError::WrongProofLength);
    assert_eq!(verify(claim, 2, 2, &out.proof, &mut t).unwrap_err(), SumcheckError::DegreeMismatch);
    assert_eq!(verify(claim, 2, 0, &out.proof, &mut t).unwrap_err(), SumcheckError::DegreeMismatch);
    let mut rounds = out.proof.rounds.clone();
    rounds[1][0] = Fe { v: u64::MAX };
    let bad = SumcheckProof { rounds };
    assert_eq!(verify(claim, 2, 3, &bad, &mut t).unwrap_err(), SumcheckError::NonCanonical);
}

#[test]
fn construction_errors() {
    assert_eq!(MultilinearExtension::new(2, table(&[1, 2, 3])).unwrap_err(), SumcheckError::LengthMismatch);
    assert_eq!(
        MultilinearExtension::new(1, vec![Fe::one(), Fe { v: u64::MAX }]).unwrap_err(),
        SumcheckError::NonCanonical
    );
    let r = VirtualPolynomial::new(1, 1, vec![mle(1, &[1, 2])], vec![Term { coeff: Fe::one(), operands: vec![1] }]);
    assert_eq!(r.unwrap_err(), SumcheckError::MalformedPolynomial);
    let r = VirtualPolynomial::new(2, 1, vec![mle(1, &[1, 2])], vec![]);
    assert_eq!(r.unwrap_err(), SumcheckError::MalformedPolynomial);
}

#[test]
fn field_arithmetic() {
    let p = 18446744069414584321u64;
    assert_eq!(fe(p - 1).add(fe(2)), fe(1));
    assert_eq!(fe(0).sub(fe(1)), fe(p - 1));
    assert_eq!(fe(1u64 << 32).mul(fe(1u64 << 32)), fe((1u64 << 32) - 1));
    let x = fe(987654321);
    assert_eq!(x.mul(x.inv()), Fe::one());
    assert_eq!(fe(3).pow(5), fe(243));
    assert_eq!(fe(0x0102030405060708).to_bytes_le(), vec![8, 7, 6, 5, 4, 3, 2, 1]);
    assert_eq!(Fe::from_bytes_le_wide(&vec![1, 1]), fe(257));
}

#[test]
fn transcript_protocol_matches_direct_calls() {
    let mut t1 = FsTranscript::new("trait");
    let mut t2 = FsTranscript::new("trait");
    t1.append_data("public", &fe(99));
    t2.append_fe("public", fe(99));
    let a = t1.challenge_scalar("seeded");
    let b = t2.challenge_fe("seeded");
    assert_eq!(a, b);
    assert!(a.v < 18446744069414584321u64);
}

#[test]
fn hypercube_sum_of_scenario() {
    let (poly, claim) = scenario_poly();
    assert_eq!(poly.sum_over_hypercube().unwrap(), claim);
    // 3*2*13 - 1*13 + 5*4*17 - 9*17 + 7*6*19 - 2*19 + 11*8*23 - 10*23
    assert_eq!(claim, fe(65 + 187 + 760 + 1794));
    let zero_vars = VirtualPolynomial::new(0, 1, vec![mle(0, &[4])], vec![]).unwrap();
    assert_eq!(zero_vars.sum_over_hypercube().unwrap_err(), SumcheckError::EmptyPolynomial);
}

#[test]
fn multilinear_evaluation_at_corners_and_inside() {
    let m = mle(2, &[1, 2, 3, 4]);
    assert_eq!(m.evaluate(&vec![fe(0), fe(0)]), fe(1));
    assert_eq!(m.evaluate(&vec![fe(0), fe(1)]), fe(2));
    assert_eq!(m.evaluate(&vec![fe(1), fe(0)]), fe(3));
    assert_eq!(m.evaluate(&vec![fe(1), fe(1)]), fe(4));
    // 1 + 2*x0 + x1 at (5, 7)
    assert_eq!(m.evaluate(&vec![fe(5), fe(7)]), fe(18));
}

#[test]
fn interpolation_of_quadratic() {
    // g(x) = x^2 + 1 at 0, 1, 2.
    let g = vec![fe(1), fe(2), fe(5)];
    assert_eq!(interpolate(&g, fe(9)), fe(82));
}

#[test]
fn single_round_proof_checks_by_hand() {
    // f = A over one variable, A = [6, 10]; g(t) = 6 + 4t.
    let poly = VirtualPolynomial::new(1, 1, vec![mle(1, &[6, 10])], vec![Term { coeff: Fe::one(), operands: vec![0] }]).unwrap();
    let mut t = FsTranscript::new("one");
    let out = prove(fe(16), poly, &mut t).unwrap();
    assert_eq!(out.proof.rounds, vec![vec![fe(6), fe(10)]]);
    let r = out.point[0];
    assert_eq!(out.final_evals[0], fe(6).add(fe(4).mul(r)));
    let mut vt = FsTranscript::new("one");
    let res = verify(fe(16), 1, 1, &out.proof, &mut vt).unwrap();
    assert!(res.accepted);
    assert_eq!(res.expected, out.final_evals[0]);
    let mut other = FsTranscript::new("another domain");
    let res2 = verify(fe(16), 1, 1, &out.proof, &mut other).unwrap();
    assert!(res2.accepted);
    assert_ne!(res2.point[0], r);
}
