use stark_prover::dft::{NaiveDft, TwoAdicSubgroupDft};
use stark_prover::field::{two_adic_generator, Felt};
use stark_prover::fri::{answer_query, fold_word, fold_word_at_point, reverse_bits_len, split_bits};
use stark_prover::matrix::RowMajorMatrix;

struct Lcg(u64);

impl Lcg {
    fn next_felt(&mut self) -> Felt {
        self.0 = self.0.wrapping_mul(6364136223846793005).wrapping_add(1442695040888963407);
        Felt::from_u64(self.0 >> 16)
    }
}

fn bit_reverse(v: &[Felt]) -> Vec<Felt> {
    let bits = v.len().trailing_zeros() as usize;
    (0..v.len()).map(|i| v[reverse_bits_len(i, bits)]).collect()
}

fn encode(msg: &[Felt], log_blowup: usize) -> Vec<Felt> {
    let mut coeffs = msg.to_vec();
    coeffs.resize(msg.len() << log_blowup, Felt::zero());
    bit_reverse(&NaiveDft.dft(coeffs))
}

fn decode(word: &[Felt]) -> Vec<Felt> {
    NaiveDft.idft(bit_reverse(word))
}

#[test]
fn reverse_bits_and_split_bits() {
    assert_eq!(reverse_bits_len(0b0011, 4), 0b1100);
    assert_eq!(reverse_bits_len(1, 1), 1);
    assert_eq!(reverse_bits_len(6, 0), 0);
    assert_eq!(reverse_bits_len(0b10110, 5), 0b01101);
    assert_eq!(split_bits(0b110101, 2), (0b1101, 0b01));
    assert_eq!(split_bits(7, 0), (7, 0));
}

#[test]
fn fold_pair_interpolates_line() {
    // The pair at index 0 of a word of length 4 sits at x = 1 and -1.
    let e0 = Felt::from_u64(10);
    let e1 = Felt::from_u64(4);
    let beta = Felt::from_u64(5);
    // Line through (1, 10) and (-1, 4): 7 + 3x, which is 22 at 5.
    assert_eq!(fold_word_at_point(2, beta, 0, e0, e1).val, 22);
    // A constant pair folds to the constant.
    let c = Felt::from_u64(77);
    assert_eq!(fold_word_at_point(3, beta, 2, c, c), c);
}

#[test]
fn test_rs_code() {
    let mut rng = Lcg(0);
    let msg: Vec<Felt> = (0..32).map(|_| rng.next_felt()).collect();
    let mut word = encode(&msg, 1);
    let mut log_len = 6usize;
    let mut coeffs = decode(&word);
    assert!(coeffs[32..].iter().all(|c| c.val == 0));
    for round in 0..3 {
        let beta = rng.next_felt();
        let folded = fold_word(&word, log_len, beta);
        let new_coeffs = decode(&folded);
        let msg_len = 32 >> (round + 1);
        // The folded polynomial is even part plus beta times odd part.
        for j in 0..msg_len {
            let expected = coeffs[2 * j].add(beta.mul(coeffs[2 * j + 1]));
            assert_eq!(new_coeffs[j], expected);
        }
        assert!(new_coeffs[msg_len..].iter().all(|c| c.val == 0));
        assert_eq!(folded.len(), 1 << (log_len - 1));
        word = folded;
        coeffs = new_coeffs;
        log_len -= 1;
    }
}

#[test]
fn fold_word_uses_bit_reversed_points() {
    let word: Vec<Felt> = (0..8).map(|i| Felt::from_u64(i * i + 1)).collect();
    let beta = Felt::from_u64(3);
    let out = fold_word(&word, 3, beta);
    assert_eq!(out.len(), 4);
    let g = two_adic_generator(3);
    for i in 0..4 {
        let x = g.exp_u64(reverse_bits_len(i, 2) as u64);
        let e0 = word[2 * i];
        let e1 = word[2 * i + 1];
        let expected = e0.add(beta.sub(x).mul(e1.sub(e0)).div(x.neg().sub(x)));
        assert_eq!(out[i], expected);
    }
}

#[test]
fn query_opens_siblings_per_layer() {
    let l0 = RowMajorMatrix::new((0..16).map(Felt::from_u64).collect(), 4);
    let l1 = RowMajorMatrix::new((100..104).map(Felt::from_u64).collect(), 4);
    let narrow = RowMajorMatrix::new((20..28).map(Felt::from_u64).collect(), 2);
    let layers = vec![vec![l0, narrow], vec![l1]];
    // Index 6: row 1, position 2 in layer 0; then index 1: row 0, position 1 in layer 1.
    let steps = answer_query(&layers, 2, 6);
    assert_eq!(steps.len(), 2);
    let v = |xs: &[u64]| xs.iter().map(|&x| Felt::from_u64(x)).collect::<Vec<_>>();
    assert_eq!(steps[0][0], v(&[4, 5, 7]));
    // The narrower matrix holds pairs: position 2 of 4 is its entry 1.
    assert_eq!(steps[0][1], v(&[22]));
    assert_eq!(steps[1][0], v(&[100, 102, 103]));
}

#[test]
fn query_with_no_layers_is_empty() {
    let steps = answer_query(&Vec::new(), 1, 3);
    assert!(steps.is_empty());
}
