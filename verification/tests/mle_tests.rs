use mle::eq::EqPolynomial;
use mle::poly::MLEPolynomial;
use mle::scalar::{Scalar, FIELD_MODULUS};
use mle::transform::{compute_coeffs_from_evals, compute_evals_from_coeffs};

#[test]
fn test_eq_new() {
    let vs = Scalar::from_usize_vector(&[1, 2, 3]);
    let _eq = EqPolynomial::new(&vs);
}

#[test]
fn test_eq_evals_over_hypercube() {
    let vs = Scalar::from_usize_vector(&[1, 2, 3]);
    let eq = EqPolynomial::new(&vs);
    let evals = eq.evals_over_hypercube();
    let evals_prime = eq.evals_over_hypercube_slow();
    assert_eq!(evals, evals_prime);
    println!("evals={}", format!("{:?}", evals));
}

#[test]
fn test_mle_new() {
    let vs = Scalar::from_usize_vector(&[1, 2, 3, 4]);
    let mle = MLEPolynomial::new(&vs);
    assert_eq!(mle.len(), 4);
    assert_eq!(mle.num_var, 2);
    assert_eq!(mle.evals, Scalar::from_usize_vector(&[1, 2, 3, 4]));
}

#[test]
fn test_mle_new_again() {
    let vs = Scalar::from_usize_vector(&[1, 2, 3, 4, 5]);
    let mle = MLEPolynomial::new(&vs);
    assert_eq!(mle.len(), 8);
    assert_eq!(mle.num_var, 3);
    assert_eq!(mle.evals, Scalar::from_usize_vector(&[1, 2, 3, 4, 5, 0, 0, 0]));
}

#[test]
fn test_fast_slow_agree_larger() {
    let vs = Scalar::from_usize_vector(&[7, 11, 13, 17]);
    let eq = EqPolynomial::new(&vs);
    assert_eq!(eq.evals_over_hypercube(), eq.evals_over_hypercube_slow());
}

#[test]
fn test_fast_slow_agree_empty() {
    let eq = EqPolynomial::new(&Vec::new());
    let evals = eq.evals_over_hypercube();
    let evals_prime = eq.evals_over_hypercube_slow();
    assert_eq!(evals, vec![Scalar::one()]);
    assert_eq!(evals, evals_prime);
}

#[test]
fn test_partition_of_unity() {
    let vs = Scalar::from_usize_vector(&[2, 9, 4]);
    let eq = EqPolynomial::new(&vs);
    let evals = eq.evals_over_hypercube();
    let mut sum = Scalar::zero();
    for v in &evals {
        sum = sum.add(*v);
    }
    assert_eq!(sum, Scalar::one());
}

#[test]
fn test_eval_matches_hypercube() {
    let vs = Scalar::from_usize_vector(&[2, 3, 7]);
    let eq = EqPolynomial::new(&vs);
    let evals = eq.evals_over_hypercube();
    for i in 0..8 {
        assert_eq!(eq.eval(i), evals[i]);
    }
}

#[test]
fn test_hypercube_exact_values() {
    // x = (2, 3): the four indicator values are
    // (1-2)(1-3) = 2,  2(1-3) = -4,  (1-2)3 = -3,  2*3 = 6  (mod the field order)
    let vs = Scalar::from_usize_vector(&[2, 3]);
    let evals = EqPolynomial::new(&vs).evals_over_hypercube();
    let expected = vec![
        Scalar::from_u64(2),
        Scalar::from_u64(FIELD_MODULUS - 4),
        Scalar::from_u64(FIELD_MODULUS - 3),
        Scalar::from_u64(6),
    ];
    assert_eq!(evals, expected);
}

#[test]
fn test_indicator_at_vertex() {
    // x = (1, 0) is itself vertex 1, so the table is the indicator of slot 1.
    let vs = Scalar::from_usize_vector(&[1, 0]);
    let eq = EqPolynomial::new(&vs);
    let evals = eq.evals_over_hypercube();
    let zero = Scalar::zero();
    let one = Scalar::one();
    assert_eq!(evals, vec![zero, one, zero, zero]);
    assert_eq!(eq.eval(1), one);
    assert_eq!(eq.eval(0), zero);
}

#[test]
fn test_eq_evaluate_kernel() {
    // eq((2), (5)) = (1-2)(1-5) + 2*5 = 14
    let vs = Scalar::from_usize_vector(&[2]);
    let eq = EqPolynomial::new(&vs);
    let r = Scalar::from_usize_vector(&[5]);
    assert_eq!(eq.evaluate(&r), Scalar::from_u64(14));
}

#[test]
fn test_mle_new_empty() {
    let mle = MLEPolynomial::new(&[]);
    assert_eq!(mle.len(), 1);
    assert_eq!(mle.num_var, 0);
    assert_eq!(mle.evals, vec![Scalar::zero()]);
}

#[test]
fn test_mle_get() {
    let vs = Scalar::from_usize_vector(&[4, 9, 16]);
    let mle = MLEPolynomial::new(&vs);
    assert_eq!(mle.get(0), Scalar::from_u64(4));
    assert_eq!(mle.get(2), Scalar::from_u64(16));
    assert_eq!(mle.get(3), Scalar::zero());
}

#[test]
fn test_fold_exact_values() {
    // Folding (1, 2, 3, 4) at rho = 2:
    // slot 0: (1-2)*1 + 2*3 = 5, slot 1: (1-2)*2 + 2*4 = 6
    let vs = Scalar::from_usize_vector(&[1, 2, 3, 4]);
    let mut mle = MLEPolynomial::new(&vs);
    mle.fold_into_half(&Scalar::from_u64(2));
    assert_eq!(mle.num_var, 1);
    assert_eq!(mle.evals, Scalar::from_usize_vector(&[5, 6]));
}

#[test]
fn test_fold_evaluate_equivalence() {
    // Folding with r0, r1, r2 binds the highest variable first, so the final
    // value is the polynomial at the reversed point (r2, r1, r0).
    let vs = Scalar::from_usize_vector(&[1, 2, 3, 4, 5, 6, 7, 8]);
    let mut mle = MLEPolynomial::new(&vs);
    let challenges = Scalar::from_usize_vector(&[2, 3, 5]);
    for rho in &challenges {
        mle.fold_into_half(rho);
    }
    assert_eq!(mle.num_var, 0);
    let folded = mle.get(0);

    let mle2 = MLEPolynomial::new(&vs);
    let point = Scalar::from_usize_vector(&[5, 3, 2]);
    assert_eq!(mle2.evaluate(&point), folded);
}

#[test]
fn test_evaluate_at_vertices() {
    // At a hypercube vertex, evaluate returns the table entry itself.
    let vs = Scalar::from_usize_vector(&[10, 20, 30, 40]);
    let mle = MLEPolynomial::new(&vs);
    let point00 = Scalar::from_usize_vector(&[0, 0]);
    let point10 = Scalar::from_usize_vector(&[1, 0]);
    let point11 = Scalar::from_usize_vector(&[1, 1]);
    assert_eq!(mle.evaluate(&point00), Scalar::from_u64(10));
    assert_eq!(mle.evaluate(&point10), Scalar::from_u64(20));
    assert_eq!(mle.evaluate(&point11), Scalar::from_u64(40));
}

#[test]
fn test_evaluate_num_var_zero() {
    let vs = Scalar::from_usize_vector(&[7]);
    let mle = MLEPolynomial::new(&vs);
    assert_eq!(mle.evaluate(&[]), Scalar::from_u64(7));
}

#[test]
fn test_coeffs_exact_values() {
    // Evaluations (1, 2, 3, 4) are the polynomial 1 + X0 + 2*X1.
    let evals = Scalar::from_usize_vector(&[1, 2, 3, 4]);
    let coeffs = compute_coeffs_from_evals(&evals);
    assert_eq!(coeffs, Scalar::from_usize_vector(&[1, 1, 2, 0]));
}

#[test]
fn test_evals_from_coeffs_padding() {
    // Coefficients (1, 1) over two variables: the polynomial 1 + X0.
    let coeffs = Scalar::from_usize_vector(&[1, 1]);
    let evals = compute_evals_from_coeffs(2, &coeffs);
    assert_eq!(evals, Scalar::from_usize_vector(&[1, 2, 1, 2]));
}

#[test]
fn test_transform_round_trip() {
    let evals = Scalar::from_usize_vector(&[3, 1, 4, 1, 5, 9, 2, 6]);
    let coeffs = compute_coeffs_from_evals(&evals);
    let back = compute_evals_from_coeffs(3, &coeffs);
    assert_eq!(back, evals);
}

#[test]
fn test_transform_degree_zero() {
    // A single-slot table: both transforms are the identity.
    let table = Scalar::from_usize_vector(&[7]);
    assert_eq!(compute_coeffs_from_evals(&table), table);
    assert_eq!(compute_evals_from_coeffs(0, &table), table);
}

#[test]
fn test_scalar_arithmetic() {
    let p_minus_1 = Scalar::from_u64(FIELD_MODULUS - 1);
    assert_eq!(p_minus_1.add(Scalar::from_u64(2)), Scalar::one());
    assert_eq!(Scalar::zero().sub(Scalar::one()), p_minus_1);
    assert_eq!(p_minus_1.mul(p_minus_1), Scalar::one());
    assert_eq!(Scalar::from_u64(FIELD_MODULUS), Scalar::zero());
}
