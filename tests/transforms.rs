use stark_prover::dft::{NaiveDft, TwoAdicSubgroupDft};
use stark_prover::field::{two_adic_generator, Felt, MODULUS};
use stark_prover::matrix::RowMajorMatrix;

struct Lcg(u64);

impl Lcg {
    fn next_felt(&mut self) -> Felt {
        self.0 = self.0.wrapping_mul(6364136223846793005).wrapping_add(1442695040888963407);
        Felt::from_u64(self.0 >> 16)
    }
}

fn random_vec(rng: &mut Lcg, n: usize) -> Vec<Felt> {
    (0..n).map(|_| rng.next_felt()).collect()
}

fn eval_poly(coeffs: &[Felt], x: Felt) -> Felt {
    let mut acc = Felt::zero();
    for c in coeffs.iter().rev() {
        acc = acc.mul(x).add(*c);
    }
    acc
}

#[test]
fn field_arithmetic_matches_integers() {
    let a = Felt::from_u64(MODULUS as u64 - 1);
    let b = Felt::from_u64(5);
    assert_eq!(a.add(b).val, 4);
    assert_eq!(b.sub(a).val, 6);
    assert_eq!(a.mul(a).val, 1);
    assert_eq!(b.neg().val, MODULUS - 5);
    assert_eq!(Felt::from_u64(3).exp_u64(5).val, 243);
    assert_eq!(Felt::from_u64(MODULUS as u64 + 7).val, 7);
}

#[test]
fn inverse_is_multiplicative_inverse() {
    for v in [1u64, 2, 3, 12345, 2013265920, 999999937] {
        let x = Felt::from_u64(v);
        assert_eq!(x.mul(x.inverse()).val, 1);
        assert_eq!(Felt::from_u64(10).mul(x).div(x).val, 10);
    }
}

#[test]
fn two_adic_generators_have_exact_order() {
    for bits in 1..=27usize {
        let g = two_adic_generator(bits);
        assert_eq!(g.exp_u64(1u64 << bits).val, 1);
        assert_ne!(g.exp_u64(1u64 << (bits - 1)).val, 1);
    }
    assert_eq!(two_adic_generator(0).val, 1);
    assert_eq!(two_adic_generator(1).val, MODULUS - 1);
}

#[test]
fn dft_evaluates_on_subgroup() {
    let mut rng = Lcg(0);
    let v = random_vec(&mut rng, 8);
    let out = NaiveDft.dft(v.clone());
    let g = two_adic_generator(3);
    for i in 0..8 {
        assert_eq!(out[i], eval_poly(&v, g.exp_u64(i as u64)));
    }
}

#[test]
fn ntt_round_trip() {
    let mut rng = Lcg(0);
    let v = random_vec(&mut rng, 32);
    let back = NaiveDft.idft(NaiveDft.dft(v.clone()));
    assert_eq!(back, v);
}

#[test]
fn batch_round_trip() {
    let mut rng = Lcg(1);
    let m = RowMajorMatrix::new(random_vec(&mut rng, 16 * 3), 3);
    let back = NaiveDft.dft_batch(NaiveDft.idft_batch(m.clone()));
    assert_eq!(back.values, m.values);
    assert_eq!(back.width, 3);
}

#[test]
fn coset_round_trip() {
    let mut rng = Lcg(2);
    let v = random_vec(&mut rng, 16);
    let shift = Felt::from_u64(31);
    let back = NaiveDft.coset_idft(NaiveDft.coset_dft(v.clone(), shift), shift);
    assert_eq!(back, v);
}

#[test]
fn coset_dft_evaluates_on_coset() {
    let mut rng = Lcg(3);
    let v = random_vec(&mut rng, 8);
    let shift = Felt::from_u64(7);
    let out = NaiveDft.coset_dft(v.clone(), shift);
    let g = two_adic_generator(3);
    for i in 0..8 {
        assert_eq!(out[i], eval_poly(&v, shift.mul(g.exp_u64(i as u64))));
    }
}

#[test]
fn lde_extends_evaluations() {
    let mut rng = Lcg(4);
    let coeffs = random_vec(&mut rng, 8);
    let g_small = two_adic_generator(3);
    let evals: Vec<Felt> = (0..8).map(|i| eval_poly(&coeffs, g_small.exp_u64(i))).collect();
    let ext = NaiveDft.lde_batch(RowMajorMatrix::new_col(evals), 2);
    assert_eq!(ext.values.len(), 32);
    let g_big = two_adic_generator(5);
    for i in 0..32 {
        assert_eq!(ext.values[i], eval_poly(&coeffs, g_big.exp_u64(i as u64)));
    }
}

#[test]
fn coset_lde_extends_onto_coset() {
    let mut rng = Lcg(5);
    let coeffs = random_vec(&mut rng, 4);
    let g_small = two_adic_generator(2);
    let evals: Vec<Felt> = (0..4).map(|i| eval_poly(&coeffs, g_small.exp_u64(i))).collect();
    let shift = Felt::from_u64(31);
    let ext = NaiveDft.coset_lde_batch(RowMajorMatrix::new_col(evals), 1, shift);
    let g_big = two_adic_generator(3);
    for i in 0..8 {
        assert_eq!(ext.values[i], eval_poly(&coeffs, shift.mul(g_big.exp_u64(i as u64))));
    }
}

#[test]
fn idft_of_constant_column() {
    let v = vec![Felt::from_u64(9); 4];
    let c = NaiveDft.idft(v);
    assert_eq!(c, vec![Felt::from_u64(9), Felt::zero(), Felt::zero(), Felt::zero()]);
}

#[test]
fn dft_of_height_one_is_identity() {
    let v = vec![Felt::from_u64(42)];
    assert_eq!(NaiveDft.dft(v.clone()), v);
    assert_eq!(NaiveDft.idft(v.clone()), v);
}
