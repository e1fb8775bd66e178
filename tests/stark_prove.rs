use stark_prover::commit_phase::FriConfig;
use stark_prover::dft::{NaiveDft, TwoAdicSubgroupDft};
use stark_prover::field::two_adic_generator;
use stark_prover::opening::deep_quotient;
use stark_prover::field::Felt;
use stark_prover::challenger::{DuplexChallenger, Permutation};
use stark_prover::merkle::{Hasher, MerkleTreeMmcs};
use stark_prover::fri_prover::Challenger;
use stark_prover::matrix::RowMajorMatrix;
use stark_prover::quotient::{fold_constraints, selectors_at};
use stark_prover::fibonacci::FibonacciAir;
use stark_prover::stark::{prove, Air};

/// A mixing hash for tests.
struct TestHasher;

impl Hasher for TestHasher {
    fn hash(&self, input: &Vec<Felt>) -> Vec<Felt> {
        let mut a = Felt::from_u64(7);
        let mut b = Felt::from_u64(11);
        for x in input {
            a = a.mul(Felt::from_u64(31)).add(*x).exp_u64(3);
            b = b.add(a).mul(Felt::from_u64(17));
        }
        vec![a, b]
    }

    fn compress(&self, left: &Vec<Felt>, right: &Vec<Felt>) -> Vec<Felt> {
        let mut joined = left.clone();
        joined.extend(right.iter().copied());
        self.hash(&joined)
    }
}

/// A mixing permutation for tests: rounds of `x^7` and adding the sum of the state.
#[derive(Clone, Copy)]
struct TestPerm;

impl Permutation for TestPerm {
    fn permute(&self, state: Vec<Felt>) -> Vec<Felt> {
        let mut s = state;
        for round in 0..8u64 {
            for (i, x) in s.iter_mut().enumerate() {
                let y = x.add(Felt::from_u64(round * 16 + i as u64 + 1));
                *x = y.exp_u64(7);
            }
            let mut total = Felt::zero();
            for x in s.iter() {
                total = total.add(*x);
            }
            for x in s.iter_mut() {
                *x = x.add(total);
            }
        }
        s
    }
}

fn fibonacci_trace(rows: usize) -> RowMajorMatrix<Felt> {
    let mut values = Vec::new();
    let (mut a, mut b) = (Felt::zero(), Felt::one());
    for _ in 0..rows {
        values.push(a);
        values.push(b);
        let c = a.add(b);
        a = b;
        b = c;
    }
    RowMajorMatrix::new(values, 2)
}

/// The verifier's identity at `zeta`: the opened quotient equals the folded constraints over
/// the opened rows, divided by the vanishing polynomial.
fn identity_holds(trace: RowMajorMatrix<Felt>) -> bool {
    let pv = vec![Felt::zero(), Felt::one()];
    let mut chal = DuplexChallenger::new(TestPerm);
    let cfg = FriConfig {
        log_blowup: 1,
        log_max_final_poly_len: 2,
        log_folding_arity: 1,
        num_queries: 5,
        proof_of_work_bits: 0,
    };
    let proof = prove(&cfg, &MerkleTreeMmcs { hasher: TestHasher }, &NaiveDft, &FibonacciAir, trace, &pv, &mut chal);
    // 7 -> 6 -> 5 -> 4 -> 3: four rounds down to 2^(1 + 2), final polynomial of 4 coefficients.
    assert_eq!(proof.opening_proof.commit_phase_commits.len(), 4);
    assert_eq!(proof.opening_proof.final_poly.len(), 4);
    assert_eq!(proof.opening_proof.query_proofs.len(), 5);
    assert_eq!(proof.degree_bits, 6);
    assert_eq!(proof.trace_local.len(), 2);
    assert_eq!(proof.trace_next.len(), 2);
    assert_eq!(proof.quotient_chunks.len(), 1);
    // Replay the transcript up to zeta.
    let mut v = DuplexChallenger::new(TestPerm);
    v.observe_element(Felt::from_u64(proof.degree_bits as u64));
    v.observe_commitment(&proof.trace_commit);
    for x in &pv {
        v.observe_element(*x);
    }
    let alpha = v.sample_element();
    v.observe_commitment(&proof.quotient_commit);
    let zeta = v.sample_element();
    let sels = selectors_at(zeta, 6);
    let cs = FibonacciAir.eval(&proof.trace_local, &proof.trace_next, &pv, &sels);
    let expected = fold_constraints(&cs, alpha).mul(sels.inv_vanishing);
    proof.quotient_chunks[0] == expected
}

#[test]
fn stark_fibonacci_identity_holds() {
    assert!(identity_holds(fibonacci_trace(64)));
}

#[test]
fn stark_broken_trace_is_caught() {
    let mut trace = fibonacci_trace(64);
    trace.values[2 * 20] = trace.values[2 * 20].add(Felt::one());
    assert!(!identity_holds(trace));
}

fn eval_poly(coeffs: &[Felt], x: Felt) -> Felt {
    let mut acc = Felt::zero();
    for c in coeffs.iter().rev() {
        acc = acc.mul(x).add(*c);
    }
    acc
}

/// Builds the batched quotient of a 16-row, 2-column trace opened at `z` and `z * h`, and
/// returns its coefficients on the coset of the 32-point domain.
fn deep_coefficients(perturb: bool) -> Vec<Felt> {
    let trace = fibonacci_trace(16);
    let shift = Felt::from_u64(31);
    let lde = NaiveDft.coset_lde_batch(trace.clone(), 1, shift);
    let coeffs = NaiveDft.idft_batch(trace);
    let col = |c: usize| -> Vec<Felt> { (0..16).map(|r| coeffs.values[r * 2 + c]).collect() };
    let z = Felt::from_u64(123456789);
    let zn = z.mul(two_adic_generator(4));
    let mut local: Vec<Felt> = (0..2).map(|c| eval_poly(&col(c), z)).collect();
    let next: Vec<Felt> = (0..2).map(|c| eval_poly(&col(c), zn)).collect();
    if perturb {
        local[1] = local[1].add(Felt::one());
    }
    let word = deep_quotient(&vec![lde], &vec![vec![z, zn]], &vec![vec![local, next]], shift, 5, Felt::from_u64(7));
    NaiveDft.coset_idft(word, shift)
}

#[test]
fn deep_quotient_is_low_degree_for_true_claims() {
    let c = deep_coefficients(false);
    assert_eq!(c.len(), 32);
    assert!(c[16..].iter().all(|x| x.val == 0));
}

#[test]
fn deep_quotient_is_not_low_degree_for_a_false_claim() {
    let c = deep_coefficients(true);
    assert!(!c[16..].iter().all(|x| x.val == 0));
}

#[test]
fn stark_transcript_equivalence() {
    let pv = vec![Felt::zero(), Felt::one()];
    let cfg = FriConfig {
        log_blowup: 1,
        log_max_final_poly_len: 2,
        log_folding_arity: 1,
        num_queries: 5,
        proof_of_work_bits: 0,
    };
    let mut p_chal = DuplexChallenger::new(TestPerm);
    let proof = prove(&cfg, &MerkleTreeMmcs { hasher: TestHasher }, &NaiveDft, &FibonacciAir, fibonacci_trace(64), &pv, &mut p_chal);

    // The verifier's side of the transcript, rebuilt from the proof alone.
    let mut v_chal = DuplexChallenger::new(TestPerm);
    v_chal.observe_element(Felt::from_u64(proof.degree_bits as u64));
    v_chal.observe_commitment(&proof.trace_commit);
    for x in &pv {
        v_chal.observe_element(*x);
    }
    let _alpha = v_chal.sample_element();
    v_chal.observe_commitment(&proof.quotient_commit);
    let _zeta = v_chal.sample_element();
    for k in 0..proof.trace_local.len() {
        v_chal.observe_element(proof.trace_local[k]);
        v_chal.observe_element(proof.trace_next[k]);
    }
    for x in &proof.quotient_chunks {
        v_chal.observe_element(*x);
    }
    let _batch = v_chal.sample_element();
    let fri = &proof.opening_proof;
    for c in &fri.commit_phase_commits {
        v_chal.observe_commitment(c);
        let _beta = v_chal.sample_element();
    }
    for x in &fri.final_poly {
        v_chal.observe_element(*x);
    }
    let _ = v_chal.grind(cfg.proof_of_work_bits);
    for qp in &fri.query_proofs {
        assert_eq!(v_chal.sample_bits(7), qp.index);
    }
    assert_eq!(p_chal.sample_element(), v_chal.sample_element());
}
