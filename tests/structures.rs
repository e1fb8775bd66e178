use stark_prover::code::{Code, CodeOrFamily, IdentityCode, SystematicCode};
use stark_prover::field::{two_adic_generator, Felt};
use stark_prover::matrix::RowMajorMatrix;
use stark_prover::quotient::{
    alpha_powers_reversed, fold_constraints, log2_ceil_usize, quotient_values, split_evals,
    vanishing_poly,
};
use stark_prover::wrapped_matrix::WrappedMatrix;

fn felts(xs: &[u64]) -> Vec<Felt> {
    xs.iter().map(|&x| Felt::from_u64(x)).collect()
}

#[test]
fn matrix_rows_and_swaps() {
    let mut m = RowMajorMatrix::new(felts(&[1, 2, 3, 4, 5, 6]), 2);
    assert_eq!(m.height(), 3);
    assert_eq!(m.row(1), felts(&[3, 4]));
    m.swap_rows(0, 2);
    assert_eq!(m.values, felts(&[5, 6, 3, 4, 1, 2]));
    m.swap_rows(1, 1);
    assert_eq!(m.values, felts(&[5, 6, 3, 4, 1, 2]));
}

#[test]
fn wrapped_matrix_joins_bands() {
    let inner = RowMajorMatrix::new(felts(&[0, 1, 2, 3, 4, 5, 6, 7]), 2);
    let w = WrappedMatrix::new(inner, 2);
    assert_eq!(w.width(), 4);
    assert_eq!(w.height(), 2);
    assert_eq!(w.row(0), felts(&[0, 1, 4, 5]));
    assert_eq!(w.row(1), felts(&[2, 3, 6, 7]));
}

#[test]
fn wrapped_row_cursor_hands_out_entries() {
    let inner = RowMajorMatrix::new(felts(&[0, 1, 2, 3, 4, 5, 6, 7]), 2);
    let w = WrappedMatrix::new(inner, 2);
    let mut it = w.row_iter(1);
    let mut seen = Vec::new();
    while let Some(v) = it.next() {
        seen.push(v);
    }
    assert_eq!(seen, felts(&[2, 3, 6, 7]));
    assert_eq!(it.next(), None);
}

#[test]
fn wrapped_matrix_single_wrap_is_inner() {
    let inner = RowMajorMatrix::new(felts(&[9, 8, 7]), 1);
    let w = WrappedMatrix::new(inner, 1);
    assert_eq!(w.height(), 3);
    assert_eq!(w.row(2), felts(&[7]));
}

#[test]
fn identity_code_is_identity() {
    let code = IdentityCode { len: 8 };
    let m = RowMajorMatrix::new(felts(&[1, 2, 3]), 1);
    let out = CodeOrFamily::<RowMajorMatrix<Felt>>::encode_batch(&code, m.clone());
    assert_eq!(out.values, m.values);
    assert_eq!(Code::<RowMajorMatrix<Felt>>::message_len(&code), 8);
    assert_eq!(Code::<RowMajorMatrix<Felt>>::codeword_len(&code), 8);
    assert_eq!(SystematicCode::<RowMajorMatrix<Felt>>::parity_len(&code), 0);
}

#[test]
fn constraints_fold_with_alpha() {
    let alpha = Felt::from_u64(10);
    // ((0 * 10 + 1) * 10 + 2) * 10 + 3 = 123
    assert_eq!(fold_constraints(&felts(&[1, 2, 3]), alpha).val, 123);
    assert_eq!(fold_constraints(&Vec::new(), alpha).val, 0);
    assert_eq!(alpha_powers_reversed(alpha, 3), felts(&[100, 10, 1]));
    assert!(alpha_powers_reversed(alpha, 0).is_empty());
}

#[test]
fn fold_equals_weighted_sum() {
    let alpha = Felt::from_u64(987654321);
    let cs = felts(&[5, 17, 2013265920, 44, 1]);
    let powers = alpha_powers_reversed(alpha, cs.len());
    let mut sum = Felt::zero();
    for (c, w) in cs.iter().zip(powers.iter()) {
        sum = sum.add(c.mul(*w));
    }
    assert_eq!(fold_constraints(&cs, alpha), sum);
}

#[test]
fn vanishing_polynomial_zero_on_subgroup() {
    let g = two_adic_generator(4);
    for i in 0..16 {
        assert_eq!(vanishing_poly(g.exp_u64(i), 4).val, 0);
    }
    // 3^4 - 1 = 80
    assert_eq!(vanishing_poly(Felt::from_u64(3), 2).val, 80);
}

#[test]
fn quotient_divides_by_vanishing() {
    let cs = vec![felts(&[1, 2]), felts(&[3])];
    let inv = felts(&[5, 7]);
    let q = quotient_values(&cs, Felt::from_u64(10), &inv);
    assert_eq!(q, felts(&[60, 21]));
}

#[test]
fn split_evals_interleaves() {
    let chunks = split_evals(&felts(&[0, 1, 2, 3, 4, 5]), 2);
    assert_eq!(chunks, vec![felts(&[0, 2, 4]), felts(&[1, 3, 5])]);
    let one = split_evals(&felts(&[8, 9]), 1);
    assert_eq!(one, vec![felts(&[8, 9])]);
}

#[test]
fn log2_ceil_values() {
    assert_eq!(log2_ceil_usize(0), 0);
    assert_eq!(log2_ceil_usize(1), 0);
    assert_eq!(log2_ceil_usize(2), 1);
    assert_eq!(log2_ceil_usize(3), 2);
    assert_eq!(log2_ceil_usize(4), 2);
    assert_eq!(log2_ceil_usize(5), 3);
}
