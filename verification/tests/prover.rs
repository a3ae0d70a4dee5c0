use p3_baby_bear::BabyBear;
use p3_dft::{Radix2Dit, TwoAdicSubgroupDft};
use p3_field::{AbstractField, PrimeField32};
use p3_fri::field::{Fp, P};
use p3_fri::prover::{
    checked_challenge, final_poly_of, prove, siblings_of, FriChallenger, FriConfig, FriError, FriMmcs,
    Transcript,
};
use p3_matrix::dense::DenseMatrix;
use p3_util::reverse_slice_index_bits;
use rand::rngs::StdRng;
use rand::{Rng, SeedableRng};

/// A commitment scheme for tests: the commitment is the height, the width and a checksum of
/// the committed values, and a row is opened as it was committed.
struct RowMmcs {
    /// Open two rows instead of one.
    faulty: bool,
    /// The (height, width) of each committed matrix and the row of each opening, in order.
    log: std::cell::RefCell<Vec<String>>,
}

impl FriMmcs for RowMmcs {
    type Commitment = (usize, usize, u64);
    type ProverData = (Vec<Fp>, usize);
    type Proof = usize;

    fn commit_matrix(&self, input: DenseMatrix<Fp, Vec<Fp>>) -> (Self::Commitment, Self::ProverData) {
        let width = input.width;
        let values = input.values;
        let checksum = values
            .iter()
            .fold(0u64, |acc, x| acc.wrapping_mul(31).wrapping_add(x.v as u64));
        self.log.borrow_mut().push(format!("commit {}x{}", values.len() / width, width));
        ((values.len() / width, width, checksum), (values, width))
    }

    fn open_batch(&self, index: usize, prover_data: &Self::ProverData) -> (Vec<Vec<Fp>>, Self::Proof) {
        let (values, width) = prover_data;
        self.log.borrow_mut().push(format!("open {} of {}", index, values.len() / width));
        let row = values[index * width..(index + 1) * width].to_vec();
        if self.faulty {
            (vec![row.clone(), row], index)
        } else {
            (vec![row], index)
        }
    }
}

/// A deterministic challenger for tests: a linear congruential generator that absorbs what it
/// observes.
struct LcgChallenger {
    state: u64,
    /// Hand out the non-canonical element `P` as a challenge.
    non_canonical: bool,
    observed: usize,
    /// The calls made on the challenger, in order.
    log: Vec<String>,
}

impl LcgChallenger {
    fn new(seed: u64) -> Self {
        LcgChallenger { state: seed, non_canonical: false, observed: 0, log: Vec::new() }
    }

    fn next(&mut self) -> u64 {
        self.state = self
            .state
            .wrapping_mul(6364136223846793005)
            .wrapping_add(1442695040888963407);
        self.state >> 33
    }
}

impl FriChallenger<(usize, usize, u64)> for LcgChallenger {
    type Witness = u64;

    fn observe(&mut self, commitment: &(usize, usize, u64)) {
        self.observed += 1;
        self.log.push("observe".to_string());
        self.state ^= commitment.2;
    }

    fn observe_ext_element(&mut self, x: Fp) {
        self.observed += 1;
        self.log.push("observe_ext".to_string());
        self.state ^= x.v as u64;
    }

    fn sample_ext_element(&mut self) -> Fp {
        self.log.push("sample_ext".to_string());
        if self.non_canonical {
            return Fp { v: P };
        }
        Fp::from_canonical_u32((self.next() % (P as u64)) as u32)
    }

    fn sample_bits(&mut self, bits: usize) -> usize {
        let r = (self.next() as usize) & ((1usize << bits) - 1);
        self.log.push(format!("sample_bits {} -> {}", bits, r));
        r
    }

    fn grind(&mut self, bits: usize) -> u64 {
        self.log.push(format!("grind {}", bits));
        0
    }
}

fn fp(x: BabyBear) -> Fp {
    Fp::from_canonical_u32(x.as_canonical_u32())
}

/// The evaluations, in bit-reversed order, of a random polynomial of degree below
/// `2^log_n / 2^log_blowup` on the subgroup of order `2^log_n`.
fn low_degree_codeword(rng: &mut StdRng, log_n: usize, log_blowup: usize) -> Vec<Fp> {
    let n = 1 << log_n;
    let degree = n >> log_blowup;
    let coeffs = (0..n)
        .map(|i| if i < degree { rng.gen::<BabyBear>() } else { BabyBear::zero() })
        .collect::<Vec<_>>();
    let dft = Radix2Dit::<BabyBear>::default();
    let mut evals = dft.dft(coeffs).into_iter().map(fp).collect::<Vec<_>>();
    reverse_slice_index_bits(&mut evals);
    evals
}

fn config(log_arity: usize, faulty: bool) -> FriConfig<RowMmcs> {
    FriConfig {
        log_blowup: 1,
        log_arity,
        num_queries: 5,
        proof_of_work_bits: 0,
        mmcs: RowMmcs { faulty, log: std::cell::RefCell::new(Vec::new()) },
    }
}

#[test]
fn test_blowup() {
    let c = FriConfig { log_blowup: 3, log_arity: 1, num_queries: 1, proof_of_work_bits: 0, mmcs: () };
    assert_eq!(c.blowup(), 8);
}

#[test]
fn test_prove_low_degree_inputs() {
    let mut rng = StdRng::seed_from_u64(7);
    let inputs = vec![
        low_degree_codeword(&mut rng, 7, 1),
        low_degree_codeword(&mut rng, 6, 1),
        low_degree_codeword(&mut rng, 5, 1),
    ];
    let mut challenger = Transcript::new(LcgChallenger::new(1));
    let config = config(2, false);
    let proof = match prove(&config, inputs, &mut challenger, |i| i) {
        Ok(proof) => proof,
        Err(e) => panic!("low-degree inputs were refused: {:?}", e),
    };
    // 2^7 evaluations are folded by 4 three times down to 2.
    assert_eq!(proof.commit_phase_commits.len(), 3);
    // Only the input of 2^6 evaluations has to be normalized.
    assert_eq!(proof.normalize_phase_commits.len(), 1);
    assert_eq!(proof.normalize_phase_commits[0].1, 6);
    assert_eq!(proof.query_proofs.len(), 5);
    assert_eq!(proof.normalize_query_proofs.len(), 5);
    for q in &proof.query_proofs {
        assert_eq!(q.commit_phase_openings.len(), 3);
        for step in &q.commit_phase_openings {
            assert_eq!(step.sibling_values.len(), 3);
        }
    }
    for q in &proof.normalize_query_proofs {
        assert_eq!(q.normalize_phase_openings.len(), 1);
        assert_eq!(q.normalize_phase_openings[0].sibling_values.len(), 1);
    }
    assert!(proof.final_poly.v < P);
    assert_eq!(proof.pow_witness, 0);
}

#[test]
fn test_prove_binary_folding() {
    let mut rng = StdRng::seed_from_u64(11);
    let inputs = vec![low_degree_codeword(&mut rng, 6, 1), low_degree_codeword(&mut rng, 4, 1)];
    let mut challenger = Transcript::new(LcgChallenger::new(3));
    let proof = prove(&config(1, false), inputs, &mut challenger, |i| i * 2).unwrap();
    assert_eq!(proof.commit_phase_commits.len(), 5);
    assert!(proof.normalize_phase_commits.is_empty());
    for q in &proof.query_proofs {
        assert_eq!(q.commit_phase_openings.len(), 5);
        for step in &q.commit_phase_openings {
            assert_eq!(step.sibling_values.len(), 1);
        }
    }
}

#[test]
fn test_prove_constant_input_gives_its_value() {
    // A constant codeword stays constant under every folding, scaled by 1 + beta * 0.
    let inputs = vec![vec![Fp::from_canonical_u32(42); 16]];
    let mut challenger = Transcript::new(LcgChallenger::new(5));
    let proof = prove(&config(1, false), inputs, &mut challenger, |i| i).unwrap();
    assert_eq!(proof.final_poly, Fp::from_canonical_u32(42));
    assert_eq!(proof.commit_phase_commits.len(), 3);
}

#[test]
fn test_prove_high_degree_input_is_refused() {
    let mut rng = StdRng::seed_from_u64(13);
    let input = (0..64).map(|_| fp(rng.gen::<BabyBear>())).collect::<Vec<_>>();
    let mut challenger = Transcript::new(LcgChallenger::new(9));
    let r = prove(&config(2, false), vec![input], &mut challenger, |i| i);
    assert!(matches!(r, Err(FriError::FinalPolynomialNotConstant)));
}

#[test]
fn test_prove_non_canonical_challenge() {
    let mut rng = StdRng::seed_from_u64(17);
    let inputs = vec![low_degree_codeword(&mut rng, 5, 1)];
    let mut lcg = LcgChallenger::new(2);
    lcg.non_canonical = true;
    let mut challenger = Transcript::new(lcg);
    let r = prove(&config(2, false), inputs, &mut challenger, |i| i);
    assert!(matches!(r, Err(FriError::NonCanonicalChallenge)));
}

#[test]
fn test_prove_unexpected_opening() {
    let mut rng = StdRng::seed_from_u64(19);
    let inputs = vec![low_degree_codeword(&mut rng, 5, 1)];
    let mut challenger = Transcript::new(LcgChallenger::new(4));
    let r = prove(&config(2, true), inputs, &mut challenger, |i| i);
    assert!(matches!(r, Err(FriError::UnexpectedOpening)));
}

#[test]
fn test_prove_observes_commitments_and_final_poly() {
    let mut rng = StdRng::seed_from_u64(23);
    let inputs = vec![low_degree_codeword(&mut rng, 5, 1)];
    let mut challenger = Transcript::new(LcgChallenger::new(6));
    prove(&config(2, false), inputs, &mut challenger, |i| i).unwrap();
    // two commit-phase commitments and the final polynomial
    assert_eq!(challenger.challenger().observed, 3);
}

#[test]
fn test_siblings_of() {
    let row: Vec<Fp> = (10..14).map(Fp::from_canonical_u32).collect();
    let s = siblings_of(vec![row.clone()], 6, 2).unwrap();
    // 6 & 3 == 2: the entry 12 is left out
    assert_eq!(
        s,
        vec![Fp::from_canonical_u32(10), Fp::from_canonical_u32(11), Fp::from_canonical_u32(13)]
    );
    assert_eq!(siblings_of(vec![row.clone(), row.clone()], 6, 2), Err(FriError::UnexpectedOpening));
    assert_eq!(siblings_of(vec![row], 6, 1), Err(FriError::UnexpectedOpening));
    assert_eq!(siblings_of(vec![], 0, 0), Err(FriError::UnexpectedOpening));
}

#[test]
fn test_final_poly_of() {
    let c = vec![Fp::from_canonical_u32(5); 4];
    assert_eq!(final_poly_of(&c), Ok(Fp::from_canonical_u32(5)));
    let mut d = c.clone();
    d[3] = Fp::from_canonical_u32(6);
    assert_eq!(final_poly_of(&d), Err(FriError::FinalPolynomialNotConstant));
    assert_eq!(final_poly_of(&vec![Fp::from_canonical_u32(9)]), Ok(Fp::from_canonical_u32(9)));
}

#[test]
fn test_checked_challenge() {
    let x = Fp::from_canonical_u32(P - 1);
    assert_eq!(checked_challenge(x), Ok(x));
    assert_eq!(checked_challenge(Fp { v: P }), Err(FriError::NonCanonicalChallenge));
    assert_eq!(checked_challenge(Fp { v: u32::MAX }), Err(FriError::NonCanonicalChallenge));
}

#[test]
fn test_prove_call_order_and_opened_rows() {
    // 2^5 evaluations, blowup 2, arity 4: no normalizing, two commit rounds (32 -> 8 -> 2)
    let mut rng = StdRng::seed_from_u64(29);
    let inputs = vec![low_degree_codeword(&mut rng, 5, 1)];
    let mut challenger = Transcript::new(LcgChallenger::new(8));
    let mut config = config(2, false);
    config.num_queries = 2;
    config.proof_of_work_bits = 3;
    let proof = prove(&config, inputs, &mut challenger, |i| i + 1000).unwrap();
    let log = &challenger.challenger().log;
    assert_eq!(&log[..6], &["observe", "sample_ext", "observe", "sample_ext", "observe_ext", "grind 3"]);
    assert_eq!(log.len(), 8);
    let indices: Vec<usize> = log[6..]
        .iter()
        .map(|l| {
            assert!(l.starts_with("sample_bits 5 -> "));
            l["sample_bits 5 -> ".len()..].parse().unwrap()
        })
        .collect();
    // the commitments are of the 32-entry codeword in rows of 4, then of the 8-entry one
    let mmcs_log = config.mmcs.log.borrow();
    assert_eq!(&mmcs_log[..2], &["commit 8x4", "commit 2x4"]);
    // each query opens row idx >> 2 of the first layer and idx >> 4 of the second
    let mut expected = vec![];
    for &idx in &indices {
        expected.push(format!("open {} of 8", idx >> 2));
        expected.push(format!("open {} of 2", idx >> 4));
    }
    assert_eq!(&mmcs_log[2..], &expected[..]);
    for (q, &idx) in indices.iter().enumerate() {
        assert_eq!(proof.query_proofs[q].input_proof, idx + 1000);
        assert_eq!(proof.query_proofs[q].commit_phase_openings[0].opening_proof, idx >> 2);
        assert_eq!(proof.query_proofs[q].commit_phase_openings[1].opening_proof, idx >> 4);
    }
}

#[test]
fn test_prove_at_blowup_draws_no_challenge() {
    // inputs of 2 = 2^log_blowup entries each: no round, no challenge; their sum is left
    let inputs = vec![
        vec![Fp::from_canonical_u32(3), Fp::from_canonical_u32(5)],
        vec![Fp::from_canonical_u32(4), Fp::from_canonical_u32(2)],
    ];
    let mut lcg = LcgChallenger::new(10);
    lcg.non_canonical = true;
    let mut challenger = Transcript::new(lcg);
    let proof = prove(&config(2, false), inputs, &mut challenger, |i| i).unwrap();
    assert_eq!(proof.final_poly, Fp::from_canonical_u32(7));
    assert!(proof.commit_phase_commits.is_empty());
    assert!(!challenger.challenger().log.iter().any(|l| l == "sample_ext"));
    let inputs = vec![vec![Fp::from_canonical_u32(3), Fp::from_canonical_u32(5)]];
    let mut challenger = Transcript::new(LcgChallenger::new(10));
    let r = prove(&config(2, false), inputs, &mut challenger, |i| i);
    assert!(matches!(r, Err(FriError::FinalPolynomialNotConstant)));
}

#[test]
fn test_prove_constant_inputs_of_three_heights() {
    // [3; 4] is folded once in the normalize phase and added to [5; 2]; [2; 8] is folded once
    // by four in the commit phase, and the sum is 2 + 3 + 5
    let c = |n: u32| Fp::from_canonical_u32(n);
    let inputs = vec![vec![c(2); 8], vec![c(3); 4], vec![c(5); 2]];
    let config = FriConfig {
        log_blowup: 1,
        log_arity: 2,
        num_queries: 2,
        proof_of_work_bits: 0,
        mmcs: RowMmcs { faulty: false, log: std::cell::RefCell::new(Vec::new()) },
    };
    let mut challenger = Transcript::new(LcgChallenger::new(31));
    let proof = prove(&config, inputs, &mut challenger, |i| i).unwrap();
    assert_eq!(proof.final_poly, c(10));
    assert_eq!(proof.commit_phase_commits.len(), 1);
    assert_eq!(proof.normalize_phase_commits.len(), 1);
    assert_eq!(proof.normalize_phase_commits[0].1, 2);
    assert_eq!(proof.query_proofs.len(), 2);
    assert_eq!(proof.normalize_query_proofs.len(), 2);
}
