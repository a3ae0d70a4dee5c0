use p3_baby_bear::BabyBear;
use p3_dft::{Radix2Dit, TwoAdicSubgroupDft};
use p3_field::{AbstractField, Field, PrimeField32};
use p3_fri::field::{Fp, P};
use p3_fri::fold_even_odd::{fold, fold_even_odd, fold_quad, fold_row_binary, fold_row_quad};
use p3_fri::matrix::{matrix_entry_at, row_major_matrix};
use p3_matrix::dense::RowMajorMatrix;
use p3_util::reverse_slice_index_bits;
use rand::rngs::StdRng;
use rand::{thread_rng, Rng, SeedableRng};

fn to_fp(v: &[BabyBear]) -> Vec<Fp> {
    v.iter()
        .map(|x| Fp::from_canonical_u32(x.as_canonical_u32()))
        .collect()
}

fn fp(x: BabyBear) -> Fp {
    Fp::from_canonical_u32(x.as_canonical_u32())
}

fn random_fp<R: Rng>(rng: &mut R, n: usize) -> Vec<Fp> {
    (0..n).map(|_| fp(rng.gen::<BabyBear>())).collect()
}

#[test]
fn test_fold_even_odd() {
    type F = BabyBear;

    let mut rng = thread_rng();

    let log_n = 10;
    let n = 1 << log_n;
    let coeffs = (0..n).map(|_| rng.gen::<F>()).collect::<Vec<_>>();

    let dft = Radix2Dit::<F>::default();
    let evals = dft.dft(coeffs.clone());

    let even_coeffs = coeffs.iter().cloned().step_by(2).collect::<Vec<_>>();
    let even_evals = dft.dft(even_coeffs);

    let odd_coeffs = coeffs.iter().cloned().skip(1).step_by(2).collect::<Vec<_>>();
    let odd_evals = dft.dft(odd_coeffs);

    let beta = rng.gen::<F>();
    let expected = even_evals
        .into_iter()
        .zip(odd_evals)
        .map(|(even, odd)| even + beta * odd)
        .collect::<Vec<_>>();

    // fold_even_odd takes and returns in bitrev order.
    let mut folded = to_fp(&evals);
    reverse_slice_index_bits(&mut folded);
    folded = fold_even_odd(RowMajorMatrix::new(folded, 2), fp(beta));
    reverse_slice_index_bits(&mut folded);

    assert_eq!(to_fp(&expected), folded);
}

#[test]
fn test_higher_arity_fold() {
    type F = BabyBear;

    let mut rng = thread_rng();

    let log_arity = 4;
    let log_n = 12;
    let n = 1 << log_n;
    let coeffs = (0..n).map(|_| rng.gen::<F>()).collect::<Vec<_>>();

    let dft = Radix2Dit::<F>::default();
    let evals = to_fp(&dft.dft(coeffs.clone()));

    let beta = rng.gen::<F>();
    let mut result = evals.clone();
    let mut new_beta = fp(beta);
    for _ in 0..log_arity {
        let m = RowMajorMatrix::new(result, 2);
        result = fold_even_odd(m, new_beta);
        new_beta = new_beta.square();
    }

    let m = RowMajorMatrix::new(evals, 1 << log_arity);
    let folded = fold(m, fp(beta), log_arity);

    assert_eq!(result.len(), folded.len());

    assert_eq!(result, folded);
}

#[test]
fn fold_row_binary_exact_value() {
    // one_half = 1/2 = (p + 1) / 2; (h + 7) 3 + (h - 7) 5 = 8 h - 14 = 4 - 14 = -10
    let h = Fp::from_canonical_u32((P + 1) / 2);
    let r = fold_row_binary(
        Fp::from_canonical_u32(3),
        Fp::from_canonical_u32(5),
        Fp::from_canonical_u32(7),
        h,
    );
    assert_eq!(r, Fp::from_canonical_u32(P - 10));
}

#[test]
fn fold_row_quad_exact_value() {
    // coefficients 10, -6, -4, 4 at b = 2: ((4 * 2 - 4) * 2 - 6) * 2 + 10 = 14
    let evals: Vec<Fp> = [1, 2, 3, 4].iter().map(|&x| Fp::from_canonical_u32(x)).collect();
    let roots: Vec<Fp> = [1, 9, 5, 9].iter().map(|&x| Fp::from_canonical_u32(x)).collect();
    let r = fold_row_quad(&evals, &roots, Fp::one(), Fp::from_canonical_u32(2), Fp::one());
    assert_eq!(r, Fp::from_canonical_u32(14));
}

#[test]
fn fold_even_odd_of_constant_polynomial_is_constant() {
    // the evaluations of the constant 5 fold to 5, whatever beta
    let n = 64;
    let v = vec![Fp::from_canonical_u32(5); n];
    let out = fold_even_odd(RowMajorMatrix::new(v, 2), Fp::from_canonical_u32(123456));
    assert_eq!(out, vec![Fp::from_canonical_u32(5); n / 2]);
}

#[test]
fn fold_even_odd_of_linear_polynomial() {
    // p(x) = 3 + 7x folds to 3 + 7 beta, a constant, on bit-reversed evaluations
    type F = BabyBear;
    let log_n = 5;
    let mut coeffs = vec![F::zero(); 1 << log_n];
    coeffs[0] = F::from_canonical_u32(3);
    coeffs[1] = F::from_canonical_u32(7);
    let dft = Radix2Dit::<F>::default();
    let mut evals = to_fp(&dft.dft(coeffs));
    reverse_slice_index_bits(&mut evals);
    let beta = Fp::from_canonical_u32(11);
    let out = fold_even_odd(RowMajorMatrix::new(evals, 2), beta);
    assert_eq!(out, vec![Fp::from_canonical_u32(3 + 7 * 11); 1 << (log_n - 1)]);
}

#[test]
fn fold_arity_two_equals_fold_even_odd() {
    let mut rng = StdRng::seed_from_u64(1);
    let v = random_fp(&mut rng, 256);
    let beta = fp(rng.gen::<BabyBear>());
    let a = fold(RowMajorMatrix::new(v.clone(), 2), beta, 1);
    let b = fold_even_odd(RowMajorMatrix::new(v, 2), beta);
    assert_eq!(a, b);
}

#[test]
fn fold_arity_four_equals_fold_quad() {
    let mut rng = StdRng::seed_from_u64(2);
    let v = random_fp(&mut rng, 256);
    let beta = fp(rng.gen::<BabyBear>());
    let a = fold(RowMajorMatrix::new(v.clone(), 4), beta, 2);
    let b = fold_quad(RowMajorMatrix::new(v, 4), beta);
    assert_eq!(a, b);
}

#[test]
fn fold_arity_eight_equals_three_binary_folds() {
    let mut rng = StdRng::seed_from_u64(3);
    let v = random_fp(&mut rng, 512);
    let beta = fp(rng.gen::<BabyBear>());
    let a = fold(RowMajorMatrix::new(v.clone(), 8), beta, 3);
    let mut b = v;
    let mut bt = beta;
    for _ in 0..3 {
        b = fold_even_odd(RowMajorMatrix::new(b, 2), bt);
        bt = bt.mul(bt);
    }
    assert_eq!(a, b);
}

#[test]
fn fold_arity_one_is_identity() {
    let mut rng = StdRng::seed_from_u64(4);
    let v = random_fp(&mut rng, 16);
    let a = fold(RowMajorMatrix::new(v.clone(), 1), Fp::from_canonical_u32(9), 0);
    assert_eq!(a, v);
}

#[test]
fn fold_single_row() {
    // a single row of two evaluations: the generator of order 2 is -1, so x = 1 and
    // the fold is (1/2 + beta/2) r0 + (1/2 - beta/2) r1
    let r0 = Fp::from_canonical_u32(10);
    let r1 = Fp::from_canonical_u32(4);
    let beta = Fp::from_canonical_u32(3);
    let out = fold_even_odd(RowMajorMatrix::new(vec![r0, r1], 2), beta);
    // (1 + 3) / 2 * 10 + (1 - 3) / 2 * 4 = 20 - 4 = 16
    assert_eq!(out, vec![Fp::from_canonical_u32(16)]);
}

#[test]
fn field_operations_exact_values() {
    let a = Fp::from_canonical_u32(P - 1);
    let b = Fp::from_canonical_u32(5);
    assert_eq!(a.add(b), Fp::from_canonical_u32(4));
    assert_eq!(b.sub(a), Fp::from_canonical_u32(6));
    assert_eq!(a.mul(a), Fp::one());
    assert_eq!(b.neg(), Fp::from_canonical_u32(P - 5));
    assert_eq!(Fp::zero().neg(), Fp::zero());
    assert_eq!(Fp::from_wrapped_u32(P + 3), Fp::from_canonical_u32(3));
    assert_eq!(b.square(), Fp::from_canonical_u32(25));
    // agrees with p3_baby_bear
    let x = BabyBear::from_canonical_u32(123456789);
    let y = BabyBear::from_canonical_u32(987654321);
    assert_eq!(fp(x).mul(fp(y)), fp(x * y));
    assert_eq!(fp(x).add(fp(y)), fp(x + y));
    assert_eq!(fp(x).sub(fp(y)), fp(x - y));
    assert_eq!(fp(y.inverse()).mul(fp(y)), Fp::one());
}

#[test]
fn fold_gives_evaluations_of_folded_polynomial() {
    // p(x) = sum_i x^i p_i(x^8) folds by 8 into p'(x) = sum_i beta^i p_i(x)
    type F = BabyBear;
    let mut rng = StdRng::seed_from_u64(5);
    let log_n = 8;
    let log_arity = 3;
    let h = 1 << log_arity;
    let n = 1 << log_n;
    let coeffs = (0..n).map(|_| rng.gen::<F>()).collect::<Vec<_>>();
    let beta = rng.gen::<F>();
    let folded_coeffs = (0..n / h)
        .map(|j| {
            (0..h).fold(F::zero(), |acc, i| acc + beta.exp_u64(i as u64) * coeffs[h * j + i])
        })
        .collect::<Vec<_>>();
    let dft = Radix2Dit::<F>::default();
    let mut evals = to_fp(&dft.dft(coeffs));
    reverse_slice_index_bits(&mut evals);
    let mut expected = to_fp(&dft.dft(folded_coeffs));
    reverse_slice_index_bits(&mut expected);
    let folded = fold(RowMajorMatrix::new(evals, h), fp(beta), log_arity);
    assert_eq!(folded, expected);
}

#[test]
fn fold_of_low_degree_codeword_reaches_a_constant() {
    // blowup 8: 64 evaluations of a polynomial of degree below 8 fold by 8 into 8 equal values
    type F = BabyBear;
    let mut rng = StdRng::seed_from_u64(6);
    let mut coeffs = vec![F::zero(); 64];
    for c in coeffs.iter_mut().take(8) {
        *c = rng.gen::<F>();
    }
    let dft = Radix2Dit::<F>::default();
    let mut evals = to_fp(&dft.dft(coeffs));
    reverse_slice_index_bits(&mut evals);
    let folded = fold(RowMajorMatrix::new(evals, 8), fp(rng.gen::<F>()), 3);
    assert_eq!(folded.len(), 8);
    assert!(folded.iter().all(|x| *x == folded[0]));
}

#[test]
fn fold_entry_depends_on_its_row_only() {
    let mut rng = StdRng::seed_from_u64(7);
    let u = random_fp(&mut rng, 64);
    let mut v = random_fp(&mut rng, 64);
    // rows of width 4: row 5 is entries 20..24
    v[20..24].copy_from_slice(&u[20..24]);
    let beta = fp(rng.gen::<BabyBear>());
    let fu = fold(RowMajorMatrix::new(u, 4), beta, 2);
    let fv = fold(RowMajorMatrix::new(v, 4), beta, 2);
    assert_eq!(fu[5], fv[5]);
    assert_ne!(fu[4], fv[4]);
}

#[test]
fn fold_of_constant_is_constant() {
    let v = vec![Fp::from_canonical_u32(77); 128];
    let out = fold(RowMajorMatrix::new(v, 8), Fp::from_canonical_u32(31337), 3);
    assert_eq!(out, vec![Fp::from_canonical_u32(77); 16]);
}

#[test]
fn fold_is_linear_in_the_codeword() {
    let mut rng = StdRng::seed_from_u64(8);
    let u = random_fp(&mut rng, 64);
    let w = random_fp(&mut rng, 64);
    let s: Vec<Fp> = u.iter().zip(w.iter()).map(|(a, b)| a.add(*b)).collect();
    let beta = fp(rng.gen::<BabyBear>());
    let fu = fold(RowMajorMatrix::new(u, 4), beta, 2);
    let fw = fold(RowMajorMatrix::new(w, 4), beta, 2);
    let fs = fold(RowMajorMatrix::new(s, 4), beta, 2);
    let sum: Vec<Fp> = fu.iter().zip(fw.iter()).map(|(a, b)| a.add(*b)).collect();
    assert_eq!(fs, sum);
}

#[test]
fn fold_even_odd_is_affine_in_beta() {
    // f(beta) = A + beta B, so f(2) - f(1) = f(1) - f(0)
    let mut rng = StdRng::seed_from_u64(9);
    let v = random_fp(&mut rng, 32);
    let f0 = fold_even_odd(RowMajorMatrix::new(v.clone(), 2), Fp::zero());
    let f1 = fold_even_odd(RowMajorMatrix::new(v.clone(), 2), Fp::one());
    let f2 = fold_even_odd(RowMajorMatrix::new(v, 2), Fp::from_canonical_u32(2));
    for i in 0..16 {
        assert_eq!(f2[i].sub(f1[i]), f1[i].sub(f0[i]));
    }
}

#[test]
fn row_major_matrix_holds_its_values() {
    let values: Vec<Fp> = (0..6).map(Fp::from_canonical_u32).collect();
    let m = row_major_matrix(values, 3);
    assert_eq!(matrix_entry_at(&m, 1, 2), Fp::from_canonical_u32(5));
    assert_eq!(matrix_entry_at(&m, 0, 1), Fp::from_canonical_u32(1));
}

#[test]
fn fold_scales_with_the_codeword() {
    let mut rng = StdRng::seed_from_u64(10);
    let u = random_fp(&mut rng, 64);
    let c = fp(rng.gen::<BabyBear>());
    let beta = fp(rng.gen::<BabyBear>());
    let scaled: Vec<Fp> = u.iter().map(|a| c.mul(*a)).collect();
    let fu = fold(RowMajorMatrix::new(u, 8), beta, 3);
    let fs = fold(RowMajorMatrix::new(scaled, 8), beta, 3);
    let expected: Vec<Fp> = fu.iter().map(|a| c.mul(*a)).collect();
    assert_eq!(fs, expected);
}

#[test]
fn fold_quad_gives_evaluations_of_folded_polynomial() {
    // p(x) = sum_i x^i p_i(x^4) folds by four into p_0 + beta p_1 + beta^2 p_2 + beta^3 p_3
    type F = BabyBear;
    let mut rng = StdRng::seed_from_u64(11);
    let n = 1 << 6;
    let coeffs = (0..n).map(|_| rng.gen::<F>()).collect::<Vec<_>>();
    let beta = rng.gen::<F>();
    let folded_coeffs = (0..n / 4)
        .map(|s| {
            coeffs[4 * s]
                + beta * coeffs[4 * s + 1]
                + beta.square() * coeffs[4 * s + 2]
                + beta.exp_u64(3) * coeffs[4 * s + 3]
        })
        .collect::<Vec<_>>();
    let dft = Radix2Dit::<F>::default();
    let mut evals = to_fp(&dft.dft(coeffs));
    reverse_slice_index_bits(&mut evals);
    let mut expected = to_fp(&dft.dft(folded_coeffs));
    reverse_slice_index_bits(&mut expected);
    assert_eq!(fold_quad(RowMajorMatrix::new(evals, 4), fp(beta)), expected);
}

#[test]
fn fold_row_interpolates_on_each_coset() {
    // p of degree below 8 on the subgroup of order 16: both rows of 8 fold to p(beta)
    type F = BabyBear;
    let mut rng = StdRng::seed_from_u64(12);
    let coeffs = (0..8).map(|_| rng.gen::<F>()).collect::<Vec<_>>();
    let beta = rng.gen::<F>();
    let p_beta = coeffs.iter().rev().fold(F::zero(), |acc, c| acc * beta + *c);
    let mut padded = coeffs.clone();
    padded.resize(16, F::zero());
    let dft = Radix2Dit::<F>::default();
    let mut evals = to_fp(&dft.dft(padded));
    reverse_slice_index_bits(&mut evals);
    let folded = fold(RowMajorMatrix::new(evals, 8), fp(beta), 3);
    assert_eq!(folded, vec![fp(p_beta), fp(p_beta)]);
}
