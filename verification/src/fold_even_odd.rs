//! Folding of polynomial evaluations: by two (`fold_even_odd`), by four (`fold_quad`) and by
//! any power of two (`fold`), each row of the input matrix giving one folded evaluation.
use crate::bits::{
    exp2, is_pow2, lemma_exp2_mono, lemma_exp2_pos, lemma_exp2_values, lemma_log2_exp2,
    lemma_block_fits, lemma_block_pos, lemma_exp2_divides, lemma_pow2_log2,
    lemma_rev_bits_bound, lemma_shr_is_div, log2, rev_bits, shl1,
};
use crate::field::{
    fadd, finv, fmul, fpow, fsub, lemma_finv_unique, lemma_two_adic_gen, powers, shifted_powers,
    two_adic_gen, Fp, TWO_ADICITY,
};
use crate::matrix::{
    lemma_entry_index, matrix_get, matrix_height, matrix_height_of, matrix_values, matrix_wf,
    matrix_width,
};
use p3_matrix::dense::DenseMatrix;
use p3_util::log2_strict_usize;
use vstd::prelude::*;

verus! {

/// `p3_util::reverse_slice_index_bits` permutes the slice so that entry `i` becomes the old entry
/// at index `rev_bits(i, log2(len))`, by swapping each pair of indices that are each other's
/// bit reversal. It panics when the length is neither zero nor a power of two, which
/// `requires` leaves out.
pub assume_specification<F>[ p3_util::reverse_slice_index_bits::<F> ](values: &mut [F])
    requires
        old(values)@.len() == 0 || is_pow2(old(values)@.len()),
    ensures
        final(values)@.len() == old(values)@.len(),
        forall|i: int|
            0 <= i < old(values)@.len() ==> #[trigger] final(values)@[i] == old(values)@[rev_bits(
                i as nat,
                log2(old(values)@.len()),
            ) as int],
;


/// The values of a sequence of field elements.
pub open spec fn vals(s: Seq<Fp>) -> Seq<int> {
    s.map_values(|x: Fp| x.val())
}

/// Every element of the sequence is canonical.
pub open spec fn all_wf(s: Seq<Fp>) -> bool {
    forall|i: int| 0 <= i < s.len() ==> (#[trigger] s[i]).wf()
}

/// `(one_half + s) * r0 + (one_half - s) * r1`.
pub open spec fn fold_row_binary_spec(r0: int, r1: int, s: int, one_half: int) -> int {
    fadd(fmul(fadd(one_half, s), r0), fmul(fsub(one_half, s), r1))
}

/// Folds one pair of evaluations: `(one_half + s) * r0 + (one_half - s) * r1`.
pub fn fold_row_binary(r0: Fp, r1: Fp, shifted_g_inv_power: Fp, one_half: Fp) -> (r: Fp)
    requires
        r0.wf(),
        r1.wf(),
        shifted_g_inv_power.wf(),
        one_half.wf(),
    ensures
        r.wf(),
        r.val() == fold_row_binary_spec(
            r0.val(),
            r1.val(),
            shifted_g_inv_power.val(),
            one_half.val(),
        ),
{
    let a = one_half.add(shifted_g_inv_power).mul(r0);
    let b = one_half.sub(shifted_g_inv_power).mul(r1);
    a.add(b)
}

/// The result of `fold_even_odd` on the values `v` of a matrix of width 2: row `i` folds to
/// `fold_row_binary(v[2i], v[2i+1], beta/2 * g_inv^rev(i), 1/2)`, where `g_inv` is the inverse
/// of the generator of order `2 * height` and `rev(i)` reverses the bits of `i` over
/// `log2(height)` bits.
pub open spec fn fold_even_odd_spec(v: Seq<int>, beta: int) -> Seq<int> {
    let h = v.len() / 2;
    let k = log2(h);
    let half = finv(2);
    let g_inv = finv(two_adic_gen(k + 1));
    Seq::new(
        h,
        |i: int|
            fold_row_binary_spec(
                v[2 * i],
                v[2 * i + 1],
                fmul(fmul(beta, half), fpow(g_inv, rev_bits(i as nat, k))),
                half,
            ),
    )
}

/// Fold a polynomial
/// ```ignore
/// p(x) = p_even(x^2) + x p_odd(x^2)
/// ```
/// into
/// ```ignore
/// p_even(x) + beta p_odd(x)
/// ```
/// Expects input to be bit-reversed evaluations: row `i` of `m` holds the evaluations of `p`
/// at `x` and `-x` for `x = g^rev(i)`.
pub fn fold_even_odd(m: DenseMatrix<Fp, Vec<Fp>>, beta: Fp) -> (r: Vec<Fp>)
    requires
        matrix_width(m) == 2,
        matrix_wf(m),
        beta.wf(),
        is_pow2(matrix_height(m)),
        log2(matrix_height(m)) + 1 <= TWO_ADICITY,
    ensures
        all_wf(r@),
        vals(r@) == fold_even_odd_spec(vals(matrix_values(m)), beta.val()),
{
    let height = matrix_height_of(&m);
    let log_h = log2_strict_usize(height);
    let ghost k = log_h as nat;
    // We use the fact that
    //     p_e(x^2) = (p(x) + p(-x)) / 2
    //     p_o(x^2) = (p(x) - p(-x)) / (2 x)
    // so that result(x^2) = (1/2 + beta/2 x^-1) p(x) + (1/2 - beta/2 x^-1) p(-x).
    let g = Fp::two_adic_generator(log_h + 1);
    proof {
        lemma_two_adic_gen(k + 1);
    }
    let g_inv = g.inverse();
    let two = Fp::from_canonical_u32(2);
    let one_half = two.inverse();
    proof {
        lemma_finv_unique(g.val(), g_inv.val());
        lemma_finv_unique(2, one_half.val());
    }
    let half_beta = beta.mul(one_half);

    // beta/2 times successive powers of g_inv, in bit-reversed order
    let mut powers = shifted_powers(g_inv, half_beta, height);
    proof {
        lemma_log2_exp2(k);
    }
    let ghost before = powers@;
    p3_util::reverse_slice_index_bits(powers.as_mut_slice());
    proof {
        assert forall|j: int| 0 <= j < height implies (#[trigger] powers@[j]).wf()
            && powers@[j].val() == fmul(
            half_beta.val(),
            fpow(g_inv.val(), rev_bits(j as nat, k)),
        ) by {
            lemma_rev_bits_bound(j as nat, k);
            assert(powers@[j] == before[rev_bits(j as nat, k) as int]);
        }
    }

    let ghost spec = fold_even_odd_spec(vals(matrix_values(m)), beta.val());
    let mut out: Vec<Fp> = Vec::new();
    for i in 0..height
        invariant
            height == matrix_height(m),
            matrix_width(m) == 2,
            matrix_wf(m),
            powers@.len() == height,
            k == log2(height as nat),
            g_inv.val() == finv(two_adic_gen(k + 1)),
            one_half.wf(),
            one_half.val() == finv(2),
            half_beta.val() == fmul(beta.val(), one_half.val()),
            forall|j: int|
                0 <= j < height ==> (#[trigger] powers@[j]).wf() && powers@[j].val() == fmul(
                    half_beta.val(),
                    fpow(g_inv.val(), rev_bits(j as nat, k)),
                ),
            spec == fold_even_odd_spec(vals(matrix_values(m)), beta.val()),
            out@.len() == i,
            forall|j: int| 0 <= j < i ==> (#[trigger] out@[j]).wf() && out@[j].val() == spec[j],
    {
        proof {
            lemma_entry_index(m, i as int, 0);
            lemma_entry_index(m, i as int, 1);
        }
        let r0 = matrix_get(&m, i, 0);
        let r1 = matrix_get(&m, i, 1);
        let folded = fold_row_binary(r0, r1, powers[i], one_half);
        proof {
            assert(matrix_values(m).len() / 2 == height);
            assert(i * 2 + 0 == 2 * i && i * 2 + 1 == 2 * i + 1);
        }
        out.push(folded);
    }
    proof {
        assert(vals(out@) =~= spec);
    }
    out
}


/// The four coefficients that `fold_row_quad` combines, from four evaluations and the inverse
/// fourth roots of unity in bit-reversed order.
pub open spec fn quad_coeffs(e: Seq<int>, rinv: Seq<int>) -> (int, int, int, int) {
    let c0 = fadd(fadd(fadd(e[0], e[1]), e[2]), e[3]);
    let c1 = fadd(fmul(rinv[0], fsub(e[0], e[1])), fmul(rinv[2], fsub(e[2], e[3])));
    let c2 = fmul(rinv[0], fsub(fsub(fadd(e[0], e[1]), e[2]), e[3]));
    let c3 = fsub(fmul(rinv[0], fsub(e[0], e[1])), fmul(rinv[2], fsub(e[2], e[3])));
    (c0, c1, c2, c3)
}

/// `(((c3 b + c2) b + c1) b + c0) * normalizing_factor` with `b = beta * g_inv_power`.
pub open spec fn fold_row_quad_spec(
    e: Seq<int>,
    rinv: Seq<int>,
    g_inv_power: int,
    beta: int,
    normalizing_factor: int,
) -> int {
    let b = fmul(beta, g_inv_power);
    let (c0, c1, c2, c3) = quad_coeffs(e, rinv);
    fmul(fadd(fmul(fadd(fmul(fadd(fmul(c3, b), c2), b), c1), b), c0), normalizing_factor)
}

/// Folds four evaluations into one (folding arity 4).
pub fn fold_row_quad(
    evals: &[Fp],
    roots_of_unity_inv: &[Fp],
    g_inv_power: Fp,
    beta: Fp,
    normalizing_factor: Fp,
) -> (r: Fp)
    requires
        evals@.len() >= 4,
        roots_of_unity_inv@.len() >= 3,
        all_wf(evals@),
        all_wf(roots_of_unity_inv@),
        g_inv_power.wf(),
        beta.wf(),
        normalizing_factor.wf(),
    ensures
        r.wf(),
        r.val() == fold_row_quad_spec(
            vals(evals@),
            vals(roots_of_unity_inv@),
            g_inv_power.val(),
            beta.val(),
            normalizing_factor.val(),
        ),
{
    let e0 = evals[0];
    let e1 = evals[1];
    let e2 = evals[2];
    let e3 = evals[3];
    let r0 = roots_of_unity_inv[0];
    let r2 = roots_of_unity_inv[2];
    let beta = beta.mul(g_inv_power);
    let coeff_0 = e0.add(e1).add(e2).add(e3);
    let coeff_1 = r0.mul(e0.sub(e1)).add(r2.mul(e2.sub(e3)));
    let coeff_2 = r0.mul(e0.add(e1).sub(e2).sub(e3));
    let coeff_3 = r0.mul(e0.sub(e1)).sub(r2.mul(e2.sub(e3)));
    coeff_3.mul(beta).add(coeff_2).mul(beta).add(coeff_1).mul(beta).add(coeff_0).mul(
        normalizing_factor,
    )
}

/// The values of row `i` of a matrix of width `w` whose values are `v`.
pub open spec fn row_vals(v: Seq<int>, i: int, w: nat) -> Seq<int> {
    v.subrange(i * w, i * w + w)
}

/// The inverses of the `2^k`-th roots of unity, in bit-reversed order: entry `j` is
/// `z^-rev(j)` for the generator `z` of order `2^k`.
pub open spec fn roots_inv_spec(k: nat) -> Seq<int> {
    Seq::new(exp2(k), |j: int| fpow(finv(two_adic_gen(k)), rev_bits(j as nat, k)))
}

/// The result of `fold_quad` on the values `v` of a matrix of width 4: row `i` folds with
/// `fold_row_quad`, the power `g_inv^rev(i)` of the inverse of the generator of order
/// `4 * height`, and normalizing factor `1/4`.
pub open spec fn fold_quad_spec(v: Seq<int>, beta: int) -> Seq<int> {
    let h = v.len() / 4;
    let k = log2(h);
    let g_inv = finv(two_adic_gen(k + 2));
    Seq::new(
        h,
        |i: int|
            fold_row_quad_spec(
                row_vals(v, i, 4),
                roots_inv_spec(2),
                fpow(g_inv, rev_bits(i as nat, k)),
                beta,
                finv(4),
            ),
    )
}

/// The powers `1, x, ..., x^(n-1)` of `x` permuted into bit-reversed order.
fn bit_reversed_powers(x: Fp, n: usize) -> (r: Vec<Fp>)
    requires
        x.wf(),
        is_pow2(n as nat),
    ensures
        r@.len() == n,
        forall|j: int|
            0 <= j < n ==> (#[trigger] r@[j]).wf() && r@[j].val() == fpow(
                x.val(),
                rev_bits(j as nat, log2(n as nat)),
            ),
{
    let mut r = powers(x, n);
    let ghost before = r@;
    p3_util::reverse_slice_index_bits(r.as_mut_slice());
    proof {
        lemma_pow2_log2(n as nat);
        assert forall|j: int| 0 <= j < n implies (#[trigger] r@[j]).wf() && r@[j].val() == fpow(
            x.val(),
            rev_bits(j as nat, log2(n as nat)),
        ) by {
            lemma_rev_bits_bound(j as nat, log2(n as nat));
            assert(r@[j] == before[rev_bits(j as nat, log2(n as nat)) as int]);
        }
    }
    r
}

/// The inverse of the generator of order `2^bits`.
fn two_adic_generator_inv(bits: usize) -> (r: Fp)
    requires
        bits <= TWO_ADICITY,
    ensures
        r.wf(),
        r.val() == finv(two_adic_gen(bits as nat)),
{
    let g = Fp::two_adic_generator(bits);
    proof {
        lemma_two_adic_gen(bits as nat);
    }
    let r = g.inverse();
    proof {
        lemma_finv_unique(g.val(), r.val());
    }
    r
}

/// The inverse of `2^k`.
fn inverse_of_pow2(k: usize) -> (r: Fp)
    requires
        k <= TWO_ADICITY,
    ensures
        r.wf(),
        r.val() == finv(exp2(k as nat) as int),
{
    let n = shl1(k);
    proof {
        lemma_exp2_mono(k as nat, 27);
        lemma_exp2_values();
        lemma_exp2_pos(k as nat);
    }
    let f = Fp::from_canonical_u32(n as u32);
    let r = f.inverse();
    proof {
        lemma_finv_unique(f.val(), r.val());
    }
    r
}

/// Folds a matrix of width 4 (folding arity 4).
pub fn fold_quad(m: DenseMatrix<Fp, Vec<Fp>>, beta: Fp) -> (r: Vec<Fp>)
    requires
        matrix_width(m) == 4,
        matrix_wf(m),
        beta.wf(),
        is_pow2(matrix_height(m)),
        log2(matrix_height(m)) + 2 <= TWO_ADICITY,
    ensures
        all_wf(r@),
        vals(r@) == fold_quad_spec(vals(matrix_values(m)), beta.val()),
{
    let height = matrix_height_of(&m);
    let log_arity: usize = 2;
    let log_h = log2_strict_usize(height);
    let ghost k = log_h as nat;
    let g_inv = two_adic_generator_inv(log_h + log_arity);
    let normalizing_factor = inverse_of_pow2(log_arity);
    // successive powers of g_inv, in bit-reversed order
    let g_inv_powers = bit_reversed_powers(g_inv, height);
    let root_inv = two_adic_generator_inv(log_arity);
    let four = shl1(log_arity);
    proof {
        lemma_exp2_values();
        lemma_log2_exp2(2);
    }
    let roots_of_unity_inv = bit_reversed_powers(root_inv, four);
    proof {
        assert(vals(roots_of_unity_inv@) =~= roots_inv_spec(2));
    }

    let ghost spec = fold_quad_spec(vals(matrix_values(m)), beta.val());
    let mut out: Vec<Fp> = Vec::new();
    for i in 0..height
        invariant
            height == matrix_height(m),
            matrix_width(m) == 4,
            matrix_wf(m),
            beta.wf(),
            k == log2(height as nat),
            g_inv_powers@.len() == height,
            forall|j: int|
                0 <= j < height ==> (#[trigger] g_inv_powers@[j]).wf() && g_inv_powers@[j].val()
                    == fpow(g_inv.val(), rev_bits(j as nat, k)),
            g_inv.val() == finv(two_adic_gen(k + 2)),
            normalizing_factor.wf(),
            normalizing_factor.val() == finv(4),
            roots_of_unity_inv@.len() == 4,
            all_wf(roots_of_unity_inv@),
            vals(roots_of_unity_inv@) == roots_inv_spec(2),
            spec == fold_quad_spec(vals(matrix_values(m)), beta.val()),
            out@.len() == i,
            forall|j: int| 0 <= j < i ==> (#[trigger] out@[j]).wf() && out@[j].val() == spec[j],
    {
        proof {
            lemma_entry_index(m, i as int, 0);
            lemma_entry_index(m, i as int, 3);
        }
        let r_0 = matrix_get(&m, i, 0);
        let r_1 = matrix_get(&m, i, 1);
        let r_2 = matrix_get(&m, i, 2);
        let r_3 = matrix_get(&m, i, 3);
        let row = vec![r_0, r_1, r_2, r_3];
        let folded = fold_row_quad(
            row.as_slice(),
            roots_of_unity_inv.as_slice(),
            g_inv_powers[i],
            beta,
            normalizing_factor,
        );
        proof {
            assert(matrix_values(m).len() / 4 == height);
            assert(vals(row@) =~= row_vals(vals(matrix_values(m)), i as int, 4));
        }
        out.push(folded);
    }
    proof {
        assert(vals(out@) =~= spec);
    }
    out
}


/// Layer `l` of the butterfly network of `fold_row_large`: in each block of `2 * 2^l`
/// entries, the entry at offset `j < 2^l` becomes the sum of the pair `(j, j + 2^l)` and the
/// one at offset `j + 2^l` their difference times the inverse root of unity of index
/// `(position of j) >> l`.
pub open spec fn bf_layer(e: Seq<int>, rinv: Seq<int>, l: nat) -> Seq<int> {
    let half = exp2(l) as int;
    Seq::new(
        e.len(),
        |idx: int|
            if idx % (2 * half) < half {
                fadd(e[idx], e[idx + half])
            } else {
                fmul(rinv[(idx - half) / half], fsub(e[idx - half], e[idx]))
            },
    )
}

/// Layers `0 .. n` of the butterfly network applied to `e`.
pub open spec fn butterflies(e: Seq<int>, rinv: Seq<int>, n: nat) -> Seq<int>
    decreases n,
{
    if n == 0 {
        e
    } else {
        bf_layer(butterflies(e, rinv, (n - 1) as nat), rinv, (n - 1) as nat)
    }
}

/// `e[0] + e[1] b + e[2] b^2 + ...`, evaluated from the last coefficient down.
pub open spec fn horner(e: Seq<int>, b: int) -> int
    decreases e.len(),
{
    if e.len() == 0 {
        0
    } else {
        fadd(fmul(horner(e.drop_first(), b), b), e[0])
    }
}

/// The value that `fold_row_large` returns: the butterflies over `num_folds` layers, read as
/// the coefficients of a polynomial evaluated at `beta * g_inv_power`, times the factor.
pub open spec fn fold_row_large_spec(
    e: Seq<int>,
    rinv: Seq<int>,
    g_inv_power: int,
    beta: int,
    normalizing_factor: int,
    num_folds: nat,
) -> int {
    fmul(
        horner(butterflies(e, rinv, num_folds), fmul(beta, g_inv_power)),
        normalizing_factor,
    )
}

/// Folds a row of evaluations into one: the butterflies of the inverse transform run over its
/// first `2^num_folds` entries, which `evals` is overwritten with, and then all of `evals` is
/// read as the coefficients of a polynomial at `beta * g_inv_power`, times the factor. A row of
/// exactly `2^num_folds` entries folds to `fold_row_large_spec`.
pub(crate) fn fold_row_large(
    evals: &mut [Fp],
    roots_of_unity_inv: &[Fp],
    g_inv_power: Fp,
    beta: Fp,
    normalizing_factor: Fp,
    num_folds: usize,
) -> (r: Fp)
    requires
        num_folds < 32,
        old(evals)@.len() >= exp2(num_folds as nat),
        roots_of_unity_inv@.len() + 1 >= exp2(num_folds as nat),
        all_wf(old(evals)@),
        all_wf(roots_of_unity_inv@),
        g_inv_power.wf(),
        beta.wf(),
        normalizing_factor.wf(),
    ensures
        final(evals)@.len() == old(evals)@.len(),
        all_wf(final(evals)@),
        vals(final(evals)@.subrange(0, exp2(num_folds as nat) as int)) == butterflies(
            vals(old(evals)@.subrange(0, exp2(num_folds as nat) as int)),
            vals(roots_of_unity_inv@),
            num_folds as nat,
        ),
        final(evals)@.subrange(exp2(num_folds as nat) as int, old(evals)@.len() as int)
            == old(evals)@.subrange(exp2(num_folds as nat) as int, old(evals)@.len() as int),
        r.wf(),
        r.val() == fmul(
            horner(vals(final(evals)@), fmul(beta.val(), g_inv_power.val())),
            normalizing_factor.val(),
        ),
        old(evals)@.len() == exp2(num_folds as nat) ==> r.val() == fold_row_large_spec(
            vals(old(evals)@),
            vals(roots_of_unity_inv@),
            g_inv_power.val(),
            beta.val(),
            normalizing_factor.val(),
            num_folds as nat,
        ),
{
    let h = shl1(num_folds);
    let n = evals.len();
    let ghost rinv = vals(roots_of_unity_inv@);
    let ghost orig_all = evals@;
    let ghost orig = vals(evals@.subrange(0, h as int));
    let ghost tail = evals@.subrange(h as int, n as int);
    let mut l: usize = 0;
    while l < num_folds
        invariant
            num_folds < 32,
            h == exp2(num_folds as nat),
            n == evals@.len(),
            h <= n,
            roots_of_unity_inv@.len() + 1 >= h,
            all_wf(roots_of_unity_inv@),
            rinv == vals(roots_of_unity_inv@),
            l <= num_folds,
            all_wf(evals@),
            vals(evals@.subrange(0, h as int)) == butterflies(orig, rinv, l as nat),
            evals@.subrange(h as int, n as int) == tail,
        decreases num_folds - l,
    {
        let half_len = shl1(l);
        let len = shl1(l + 1);
        proof {
            lemma_exp2_divides((l + 1) as nat, num_folds as nat);
            lemma_exp2_pos(l as nat);
            crate::bits::lemma_exp2_mono((l + 1) as nat, num_folds as nat);
        }
        let ghost prev = vals(evals@.subrange(0, h as int));
        let ghost layer = bf_layer(prev, rinv, l as nat);
        let ghost start = evals@;
        let mut i: usize = 0;
        while i < h
            invariant
                num_folds < 32,
                l < num_folds,
                h == exp2(num_folds as nat),
                n == evals@.len(),
                h <= n,
                half_len == exp2(l as nat),
                len == 2 * half_len,
                len <= h,
                h % len == 0,
                half_len >= 1,
                i % len == 0,
                i <= h,
                roots_of_unity_inv@.len() + 1 >= h,
                all_wf(roots_of_unity_inv@),
                rinv == vals(roots_of_unity_inv@),
                prev.len() == h,
                layer == bf_layer(prev, rinv, l as nat),
                all_wf(evals@),
                forall|idx: int|
                    0 <= idx < h ==> #[trigger] evals@[idx].val() == if idx < i {
                        layer[idx]
                    } else {
                        prev[idx]
                    },
                forall|idx: int| h <= idx < n ==> #[trigger] evals@[idx] == start[idx],
            decreases h - i,
        {
            proof {
                lemma_block_fits(i as int, len as int, h as int);
            }
            let mut j: usize = 0;
            while j < half_len
                invariant
                    l < 32,
                    h == exp2(num_folds as nat),
                    n == evals@.len(),
                    h <= n,
                    half_len == exp2(l as nat),
                    len == 2 * half_len,
                    i % len == 0,
                    i + len <= h,
                    j <= half_len,
                    roots_of_unity_inv@.len() + 1 >= h,
                    all_wf(roots_of_unity_inv@),
                    rinv == vals(roots_of_unity_inv@),
                    prev.len() == h,
                    layer == bf_layer(prev, rinv, l as nat),
                    all_wf(evals@),
                    forall|idx: int|
                        0 <= idx < h ==> #[trigger] evals@[idx].val() == if idx < i || (i <= idx
                            < i + j) || (i + half_len <= idx < i + half_len + j) {
                            layer[idx]
                        } else {
                            prev[idx]
                        },
                    forall|idx: int| h <= idx < n ==> #[trigger] evals@[idx] == start[idx],
                decreases half_len - j,
            {
                let idx_0 = i + j;
                let idx_1 = idx_0 + half_len;
                let a = evals[idx_0];
                let b = evals[idx_1];
                proof {
                    lemma_shr_is_div(idx_0, l);
                    lemma_block_pos(i as int, j as int, len as int);
                    lemma_block_pos(i as int, (j + half_len) as int, len as int);
                    assert(idx_0 >> l == idx_0 / half_len);
                    // idx_0 + half_len < h, so idx_0 / half_len + 1 <= (h - 1) / half_len <= h - 1
                    vstd::arithmetic::div_mod::lemma_fundamental_div_mod(idx_0 as int, half_len as int);
                    let qq = (idx_0 / half_len) as int;
                    let rr = (idx_0 % half_len) as int;
                    assert((idx_0 + half_len) as int == (qq + 1) * (half_len as int) + rr) by (nonlinear_arith)
                        requires
                            idx_0 as int == (half_len as int) * qq + rr,
                    ;
                    vstd::arithmetic::div_mod::lemma_mod_pos_bound(idx_0 as int, half_len as int);
                    vstd::arithmetic::div_mod::lemma_fundamental_div_mod_converse(
                        (idx_0 + half_len) as int,
                        half_len as int,
                        (idx_0 / half_len + 1) as int,
                        (idx_0 % half_len) as int,
                    );
                    vstd::arithmetic::div_mod::lemma_div_is_ordered(
                        (idx_0 + half_len) as int,
                        (h - 1) as int,
                        half_len as int,
                    );
                    vstd::arithmetic::div_mod::lemma_div_is_ordered_by_denominator((h - 1) as int, 1, half_len as int);
                    assert(idx_0 / half_len + 1 < h);
                }
                let u = a.add(b);
                let v = roots_of_unity_inv[idx_0 >> l].mul(a.sub(b));
                evals[idx_0] = u;
                evals[idx_1] = v;
                proof {
                    assert(prev[idx_0 as int] == a.val());
                    assert(prev[idx_1 as int] == b.val());
                    assert(layer[idx_0 as int] == fadd(prev[idx_0 as int], prev[idx_1 as int]));
                    assert(layer[idx_1 as int] == fmul(
                        rinv[(idx_0 / half_len) as int],
                        fsub(prev[idx_0 as int], prev[idx_1 as int]),
                    ));
                }
                j = j + 1;
            }
            proof {
                vstd::arithmetic::div_mod::lemma_mod_add_multiples_vanish(i as int, len as int);
            }
            i = i + len;
        }
        proof {
            assert(vals(evals@.subrange(0, h as int)) =~= layer);
            assert(evals@.subrange(h as int, n as int) =~= start.subrange(h as int, n as int));
        }
        l = l + 1;
    }

    let ghost fin = vals(evals@);
    let beta = beta.mul(g_inv_power);
    let mut acc = Fp::zero();
    let mut m: usize = n;
    proof {
        assert(fin.subrange(n as int, n as int) =~= Seq::<int>::empty());
    }
    while m > 0
        invariant
            m <= n,
            n == evals@.len(),
            all_wf(evals@),
            fin == vals(evals@),
            beta.wf(),
            acc.wf(),
            acc.val() == horner(fin.subrange(m as int, n as int), beta.val()),
        decreases m,
    {
        m = m - 1;
        proof {
            assert(fin.subrange(m as int, n as int).drop_first() =~= fin.subrange(
                (m + 1) as int,
                n as int,
            ));
        }
        acc = acc.mul(beta).add(evals[m]);
    }
    proof {
        assert(fin.subrange(0, n as int) =~= fin);
        if n == h {
            assert(orig_all.subrange(0, h as int) =~= orig_all);
            assert(evals@.subrange(0, h as int) =~= evals@);
        }
    }
    acc.mul(normalizing_factor)
}


/// The result of `fold` on the values `v` of a matrix of width `2^log_arity`: row `i` folds
/// with `fold_row_large`, the power `g_inv^rev(i)` of the inverse of the generator of order
/// `2^log_arity * height`, the inverse roots of unity of order `2^log_arity` in bit-reversed
/// order and normalizing factor `1 / 2^log_arity`.
pub open spec fn fold_spec(v: Seq<int>, beta: int, log_arity: nat) -> Seq<int> {
    let w = exp2(log_arity);
    let h = v.len() / w;
    let k = log2(h);
    let g_inv = finv(two_adic_gen(k + log_arity));
    Seq::new(
        h,
        |i: int|
            fold_row_large_spec(
                row_vals(v, i, w),
                roots_inv_spec(log_arity),
                fpow(g_inv, rev_bits(i as nat, k)),
                beta,
                finv(w as int),
                log_arity,
            ),
    )
}

/// Fold a polynomial by an arity higher than 2.
pub fn fold(m: DenseMatrix<Fp, Vec<Fp>>, beta: Fp, log_arity: usize) -> (r: Vec<Fp>)
    requires
        log_arity <= TWO_ADICITY,
        matrix_width(m) == exp2(log_arity as nat),
        matrix_wf(m),
        beta.wf(),
        is_pow2(matrix_height(m)),
        log2(matrix_height(m)) + log_arity <= TWO_ADICITY,
    ensures
        all_wf(r@),
        vals(r@) == fold_spec(vals(matrix_values(m)), beta.val(), log_arity as nat),
{
    // Let h = 2^log_arity. Write a polynomial p(x) as sum_{i=0}^{h-1} x^i p_i(x^h).
    // We seek a vector of evaluations of the polynomial p'(x) = sum_{i=0}^{h-1} beta^i p_i(x),
    // given evaluations of p(x).
    //
    // Let z be an h-th root of unity. We use the formula:
    // p_j(x) = 1/(h x^j) sum_{k=0}^{h-1} z^{-i*j}p(z^i*x), which is basically an inverse
    // Fourier transform.
    let height = matrix_height_of(&m);
    let width = shl1(log_arity);
    let log_h = log2_strict_usize(height);
    let ghost k = log_h as nat;
    let g_inv = two_adic_generator_inv(log_h + log_arity);
    let normalizing_factor = inverse_of_pow2(log_arity);
    // successive powers of g_inv, in bit-reversed order
    let g_inv_powers = bit_reversed_powers(g_inv, height);
    let root_inv = two_adic_generator_inv(log_arity);
    proof {
        lemma_log2_exp2(log_arity as nat);
    }
    let roots_of_unity_inv = bit_reversed_powers(root_inv, width);
    proof {
        assert(vals(roots_of_unity_inv@) =~= roots_inv_spec(log_arity as nat));
    }

    let ghost v = matrix_values(m);
    let ghost spec = fold_spec(vals(v), beta.val(), log_arity as nat);
    let mut out: Vec<Fp> = Vec::new();
    for i in 0..height
        invariant
            height == matrix_height(m),
            width == matrix_width(m),
            width == exp2(log_arity as nat),
            log_arity <= TWO_ADICITY,
            v == matrix_values(m),
            matrix_wf(m),
            beta.wf(),
            k == log2(height as nat),
            g_inv_powers@.len() == height,
            forall|j: int|
                0 <= j < height ==> (#[trigger] g_inv_powers@[j]).wf() && g_inv_powers@[j].val()
                    == fpow(g_inv.val(), rev_bits(j as nat, k)),
            g_inv.val() == finv(two_adic_gen(k + log_arity as nat)),
            normalizing_factor.wf(),
            normalizing_factor.val() == finv(exp2(log_arity as nat) as int),
            roots_of_unity_inv@.len() == width,
            all_wf(roots_of_unity_inv@),
            vals(roots_of_unity_inv@) == roots_inv_spec(log_arity as nat),
            spec == fold_spec(vals(v), beta.val(), log_arity as nat),
            out@.len() == i,
            forall|j: int| 0 <= j < i ==> (#[trigger] out@[j]).wf() && out@[j].val() == spec[j],
    {
        let mut row: Vec<Fp> = Vec::new();
        proof {
            lemma_exp2_pos(log_arity as nat);
            lemma_entry_index(m, i as int, 0);
            lemma_entry_index(m, i as int, width - 1);
            assert(v.subrange(i * width, i * width + 0) =~= Seq::<Fp>::empty());
        }
        for c in 0..width
            invariant
                i < height,
                height == matrix_height(m),
                width == matrix_width(m),
                v == matrix_values(m),
                matrix_wf(m),
                i * width + width <= v.len(),
                row@ == v.subrange(i * width, i * width + c),
        {
            proof {
                lemma_entry_index(m, i as int, c as int);
            }
            let x = matrix_get(&m, i, c);
            proof {
                assert(v.subrange(i * width, i * width + c + 1) =~= v.subrange(
                    i * width,
                    i * width + c,
                ).push(x));
            }
            row.push(x);
        }
        proof {
            lemma_entry_index(m, i as int, 0);
            lemma_entry_index(m, i as int, width - 1);
            assert(all_wf(row@)) by {
                assert forall|c: int| 0 <= c < row@.len() implies (#[trigger] row@[c]).wf() by {
                    assert(row@[c] == v[i * width + c]);
                }
            }
            lemma_exp2_mono(log_arity as nat, 27);
            lemma_exp2_values();
            assert(v.len() / (width as nat) == height);
            assert(vals(row@) =~= row_vals(vals(v), i as int, width as nat));
        }
        let folded = fold_row_large(
            row.as_mut_slice(),
            roots_of_unity_inv.as_slice(),
            g_inv_powers[i],
            beta,
            normalizing_factor,
            log_arity,
        );
        out.push(folded);
    }
    proof {
        assert(vals(out@) =~= spec);
    }
    out
}

} // verus!
