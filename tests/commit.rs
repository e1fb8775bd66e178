use stark_prover::commit_phase::{
    fold_and_sum, query_index_bits, reverse_slice_index_bits, Codeword, CommitPhase, FriConfig,
};
use stark_prover::dft::{NaiveDft, TwoAdicSubgroupDft};
use stark_prover::field::{two_adic_generator, Felt};
use stark_prover::fri::{answer_query, reverse_bits_len, split_bits};
use stark_prover::challenger::{DuplexChallenger, Permutation};
use stark_prover::merkle::{Hasher, MerkleTreeMmcs};
use stark_prover::fri_prover::{prove, Challenger, Mmcs};
use stark_prover::matrix::RowMajorMatrix;
use stark_prover::stark::{constraint_degree, quotient_row_pair, stark_shape};

struct Lcg(u64);

impl Lcg {
    fn next_felt(&mut self) -> Felt {
        self.0 = self.0.wrapping_mul(6364136223846793005).wrapping_add(1442695040888963407);
        Felt::from_u64(self.0 >> 16)
    }
}

fn encode(msg: &[Felt], log_blowup: usize) -> Vec<Felt> {
    let mut coeffs = msg.to_vec();
    coeffs.resize(msg.len() << log_blowup, Felt::zero());
    let evals = NaiveDft.dft(coeffs);
    let bits = evals.len().trailing_zeros() as usize;
    reverse_slice_index_bits(&evals, bits)
}

fn random_codeword(rng: &mut Lcg, log_msg_len: usize, log_blowup: usize) -> Codeword {
    let msg: Vec<Felt> = (0..1usize << log_msg_len).map(|_| rng.next_felt()).collect();
    Codeword { log_word_len: log_msg_len + log_blowup, word: encode(&msg, log_blowup) }
}

fn config() -> FriConfig {
    FriConfig {
        log_blowup: 2,
        log_max_final_poly_len: 3,
        log_folding_arity: 2,
        num_queries: 10,
        proof_of_work_bits: 8,
    }
}

#[test]
fn commit_phase_reaches_final_poly() {
    let mut rng = Lcg(0);
    let cfg = config();
    let inputs: Vec<Codeword> = [8usize, 7, 6, 5]
        .iter()
        .map(|&l| random_codeword(&mut rng, l, cfg.log_blowup))
        .collect();
    let mut state = CommitPhase::new(inputs);
    let mut layers: Vec<Vec<RowMajorMatrix<Felt>>> = Vec::new();
    let mut rounds = 0;
    while state.has_round(&cfg) {
        let mats = state.open_round(cfg.log_folding_arity);
        assert!(!mats.is_empty());
        for m in &mats {
            assert_eq!(m.values.len() / m.width, 1 << state.log_word_len);
        }
        layers.push(mats.clone());
        let beta = rng.next_felt();
        state.close_round(beta);
        rounds += 1;
    }
    // 10 -> 8 -> 6 -> 4: three rounds, ending at 2^(2 + 2).
    assert_eq!(rounds, 4 - 1);
    assert_eq!(state.log_word_len, 4);
    let final_poly = state.final_poly(&NaiveDft, cfg.log_blowup);
    assert_eq!(final_poly.len(), 4);
    // The remaining word is a codeword of the final polynomial.
    let word = &state.active[0].word;
    let re_encoded = encode(&final_poly, 2);
    assert_eq!(&re_encoded, word);
    let bits = query_index_bits(&cfg, 2, rounds);
    assert_eq!(bits, 2 + 2 + 2 * 3);
    let steps = answer_query(&layers, cfg.log_folding_arity, 0);
    assert_eq!(steps.len(), 3);
    // Round one commits the inputs of log length 10 and 9, round two the running word and
    // the inputs of log length 8 and 7, round three the running word.
    assert_eq!(steps[0].len(), 2);
    assert_eq!(steps[1].len(), 3);
    assert_eq!(steps[2].len(), 1);
    assert_eq!(steps[0][0].len(), 3);
    assert_eq!(steps[0][1].len(), 1);
}

#[test]
fn fold_and_sum_of_one_word_is_its_fold() {
    let mut rng = Lcg(7);
    let cw = random_codeword(&mut rng, 3, 1);
    let beta = rng.next_felt();
    let summed = fold_and_sum(&vec![Codeword { log_word_len: 4, word: cw.word.clone() }], 3, beta);
    let once = stark_prover::fri::fold_word(&cw.word, 4, beta);
    assert_eq!(summed, once);
    let two = fold_and_sum(
        &vec![
            Codeword { log_word_len: 4, word: cw.word.clone() },
            Codeword { log_word_len: 4, word: cw.word.clone() },
        ],
        3,
        beta,
    );
    let doubled: Vec<Felt> = once.iter().map(|x| x.add(*x)).collect();
    assert_eq!(two, doubled);
}

#[test]
fn bit_reversal_permutes_indices() {
    let v: Vec<Felt> = (0..8).map(Felt::from_u64).collect();
    let r = reverse_slice_index_bits(&v, 3);
    let expected: Vec<Felt> = [0u64, 4, 2, 6, 1, 5, 3, 7].iter().map(|&x| Felt::from_u64(x)).collect();
    assert_eq!(r, expected);
    assert_eq!(reverse_bits_len(3, 3), 6);
    assert_eq!(split_bits(13, 3), (1, 5));
}

#[test]
fn stark_shape_for_degree_three() {
    let shape = stark_shape(64, 3);
    assert_eq!(shape.log_degree, 6);
    assert_eq!(shape.log_quotient_degree, 1);
    assert_eq!(shape.quotient_degree, 2);
    assert_eq!(shape.quotient_size, 128);
    let linear = stark_shape(8, 2);
    assert_eq!(linear.log_quotient_degree, 0);
    assert_eq!(linear.quotient_size, 8);
    let quintic = stark_shape(16, 5);
    assert_eq!(quintic.log_quotient_degree, 2);
    assert_eq!(quintic.quotient_size, 64);
}

#[test]
fn constraint_degree_is_maximum() {
    assert_eq!(constraint_degree(&vec![2, 3, 1]), 3);
    assert_eq!(constraint_degree(&vec![]), 0);
}

#[test]
fn row_pair_wraps_around() {
    let m = RowMajorMatrix::new((0..8).map(Felt::from_u64).collect(), 2);
    let (a, b) = quotient_row_pair(&m, 3, 2);
    assert_eq!(a, vec![Felt::from_u64(6), Felt::from_u64(7)]);
    assert_eq!(b, vec![Felt::from_u64(2), Felt::from_u64(3)]);
    let (c, d) = quotient_row_pair(&m, 0, 1);
    assert_eq!(c, vec![Felt::from_u64(0), Felt::from_u64(1)]);
    assert_eq!(d, vec![Felt::from_u64(2), Felt::from_u64(3)]);
}

#[test]
fn generator_powers_in_bit_reversed_order() {
    let g = two_adic_generator(2);
    let pts: Vec<Felt> = (0..4).map(|i| g.exp_u64(i)).collect();
    let r = reverse_slice_index_bits(&pts, 2);
    assert_eq!(r[1], g.exp_u64(2));
}

/// A mixing hash for tests.
struct TestHasher;

impl Hasher for TestHasher {
    fn hash(&self, input: &Vec<Felt>) -> Vec<Felt> {
        let mut a = Felt::from_u64(7);
        let mut b = Felt::from_u64(11);
        for x in input {
            a = a.mul(Felt::from_u64(31)).add(*x).exp_u64(3);
            b = b.add(a).mul(Felt::from_u64(17));
        }
        vec![a, b]
    }

    fn compress(&self, left: &Vec<Felt>, right: &Vec<Felt>) -> Vec<Felt> {
        let mut joined = left.clone();
        joined.extend(right.iter().copied());
        self.hash(&joined)
    }
}

/// A mixing permutation for tests: rounds of `x^7` and adding the sum of the state.
#[derive(Clone, Copy)]
struct TestPerm;

impl Permutation for TestPerm {
    fn permute(&self, state: Vec<Felt>) -> Vec<Felt> {
        let mut s = state;
        for round in 0..8u64 {
            for (i, x) in s.iter_mut().enumerate() {
                let y = x.add(Felt::from_u64(round * 16 + i as u64 + 1));
                *x = y.exp_u64(7);
            }
            let mut total = Felt::zero();
            for x in s.iter() {
                total = total.add(*x);
            }
            for x in s.iter_mut() {
                *x = x.add(total);
            }
        }
        s
    }
}

#[test]
fn test_fri_rs() {
    let mut rng = Lcg(0);
    let cfg = config();
    let inputs: Vec<Codeword> = [8usize, 7, 6, 5]
        .iter()
        .map(|&l| random_codeword(&mut rng, l, cfg.log_blowup))
        .collect();
    let mut p_chal = DuplexChallenger::new(TestPerm);
    let proof = prove(&cfg, &MerkleTreeMmcs { hasher: TestHasher }, &NaiveDft, inputs, &mut p_chal, |_index: usize| ());
    assert_eq!(proof.commit_phase_commits.len(), 3);
    assert_eq!(proof.final_poly.len(), 4);
    assert_eq!(proof.query_proofs.len(), 10);
    for qp in &proof.query_proofs {
        assert!(qp.index < 1 << 10);
        assert_eq!(qp.commit_phase_openings.len(), 3);
        assert_eq!(qp.commit_phase_openings[0].openings.len(), 2);
        assert_eq!(qp.commit_phase_openings[1].openings.len(), 3);
        assert_eq!(qp.commit_phase_openings[2].openings.len(), 1);
        // Layer 0 has 2^8 rows, so its path has 8 nodes; layer 2 has 2^4 rows.
        assert_eq!(qp.commit_phase_openings[0].proof.len(), 8);
        assert_eq!(qp.commit_phase_openings[2].proof.len(), 4);
    }

    // Replay the transcript as the verifier does, from the proof alone.
    let mut v_chal = DuplexChallenger::new(TestPerm);
    for commit in &proof.commit_phase_commits {
        v_chal.observe_commitment(commit);
        let _beta = v_chal.sample_element();
    }
    for x in &proof.final_poly {
        v_chal.observe_element(*x);
    }
    assert_eq!(v_chal.grind(cfg.proof_of_work_bits), proof.pow_witness);
    for qp in &proof.query_proofs {
        assert_eq!(v_chal.sample_bits(10), qp.index);
    }
    assert_eq!(p_chal.sample_element(), v_chal.sample_element(), "challengers have same state");
}

#[test]
fn fri_prove_with_wide_arity_and_short_final_poly() {
    // Blowup 2^1, final length 2^0, arity 2 bits, one input of log length 5: 5 -> 3 -> 1.
    let mut rng = Lcg(3);
    let cfg = FriConfig {
        log_blowup: 1,
        log_max_final_poly_len: 0,
        log_folding_arity: 2,
        num_queries: 3,
        proof_of_work_bits: 0,
    };
    let inputs = vec![random_codeword(&mut rng, 4, 1)];
    let mut chal = DuplexChallenger::new(TestPerm);
    let proof = prove(&cfg, &MerkleTreeMmcs { hasher: TestHasher }, &NaiveDft, inputs, &mut chal, |_index: usize| ());
    assert_eq!(proof.commit_phase_commits.len(), 2);
    assert_eq!(proof.final_poly.len(), 1);
}

#[test]
fn merkle_path_recomputes_root() {
    let mmcs = MerkleTreeMmcs { hasher: TestHasher };
    let m = RowMajorMatrix::new((0..16).map(Felt::from_u64).collect(), 2);
    let (root, data) = mmcs.commit(vec![m.clone()]);
    for index in 0..8usize {
        let path = mmcs.open_path(index, &data);
        assert_eq!(path.len(), 3);
        let mut node = TestHasher.hash(&m.values[index * 2..index * 2 + 2].to_vec());
        let mut i = index;
        for sib in &path {
            node = if i % 2 == 0 { TestHasher.compress(&node, sib) } else { TestHasher.compress(sib, &node) };
            i /= 2;
        }
        assert_eq!(node, root);
    }
}
