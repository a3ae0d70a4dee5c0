//! Codewords of low degree, and why the prover accepts them: each fold of a codeword of low
//! degree is again of low degree, and so is the sum of two of them; when only `blowup`
//! evaluations are left, a codeword of low degree is constant.
use crate::bits::{exp2, is_pow2, lemma_exp2_pos, lemma_exp2_values, lemma_log2_exp2, log2, rev_bits};
use crate::field::{
    canon, eqm, fadd, finv, fmul, fneg, fpow, lemma_canon_mod, lemma_eqm_add, lemma_eqm_canon_eq, lemma_eqm_mul,
    lemma_fpow_add, lemma_fpow_mul_base, lemma_fpow_range, lemma_mod_range, lemma_two_adic_gen,
    lemma_two_adic_gen_pow2, p, two_adic_gen,
};
use crate::fold_arity_law::{iterated_fold_even_odd, law_fold_is_iterated_fold_even_odd};
use crate::fold_even_odd::{
    fold_even_odd_spec, fold_quad_spec, fold_row_large_spec, fold_spec, roots_inv_spec, row_vals,
};
use crate::prover::{
    all_canon, commit_state, final_codeword, is_constant, normalize_slot, normalize_slots, normalized_contribution,
    normalized_inputs_spec, num_normalize_folds, slots_descending, vadd,
};
use crate::fold_laws::{
    even_coeffs, feval, fold_point, law_fold_arity_four_is_fold_quad, law_fold_even_odd_folds_polynomial,
    lemma_ops_eqm, lemma_peval_eqm, odd_coeffs, peval,
};
use vstd::prelude::*;

verus! {

// ---------------------------------------------------------------------------------------------
// Codewords
/// The point that entry `i` of a codeword of length `2^k` stands for: `g^rev(i)`, with `g`
/// the generator of the subgroup of order `2^k` and `rev` the reversal of `k` bits.
pub open spec fn lde_point(i: nat, k: nat) -> int {
    fpow(two_adic_gen(k), rev_bits(i, k))
}

/// `v` holds the evaluations of the polynomial with coefficients `c` on the subgroup of order
/// `v.len()`, in bit-reversed order.
pub open spec fn evaluates(v: Seq<int>, c: Seq<int>) -> bool {
    forall|i: int| 0 <= i < v.len() ==> v[i] == #[trigger] feval(c, lde_point(i as nat, log2(v.len())))
}

/// `v` is a codeword of rate `2^-log_blowup`: the bit-reversed evaluations, on a subgroup of
/// order a power of two, of a polynomial with fewer than `v.len() / 2^log_blowup`
/// coefficients.
pub open spec fn low_degree(v: Seq<int>, log_blowup: nat) -> bool {
    &&& is_pow2(v.len())
    &&& exists|c: Seq<int>| c.len() * exp2(log_blowup) <= v.len() && #[trigger] evaluates(v, c)
}

/// Coefficient `j` of `a`, zero beyond its end.
pub open spec fn coeff(a: Seq<int>, j: int) -> int {
    if 0 <= j < a.len() {
        a[j]
    } else {
        0
    }
}

/// The coefficients of `a + s b`.
pub open spec fn lin_comb(a: Seq<int>, b: Seq<int>, s: int) -> Seq<int> {
    Seq::new(
        if a.len() >= b.len() {
            a.len()
        } else {
            b.len()
        },
        |j: int| coeff(a, j) + s * coeff(b, j),
    )
}

spec fn tail(a: Seq<int>) -> Seq<int> {
    if a.len() == 0 {
        a
    } else {
        a.drop_first()
    }
}

/// `p(x) = p_0 + x p_tail(x)`, also for the empty polynomial.
proof fn lemma_peval_unfold(a: Seq<int>, x: int)
    ensures
        peval(a, x) == coeff(a, 0) + x * peval(tail(a), x),
{
    if a.len() == 0 {
        assert(x * 0 == 0) by (nonlinear_arith);
    }
}

/// `(a + s b)(x) = a(x) + s b(x)`.
pub proof fn lemma_peval_lin_comb(a: Seq<int>, b: Seq<int>, s: int, x: int)
    ensures
        peval(lin_comb(a, b, s), x) == peval(a, x) + s * peval(b, x),
    decreases a.len() + b.len(),
{
    let l = lin_comb(a, b, s);
    if a.len() == 0 && b.len() == 0 {
        assert(s * 0 == 0) by (nonlinear_arith);
    } else {
        let a1 = tail(a);
        let b1 = tail(b);
        assert(l.drop_first() =~= lin_comb(a1, b1, s));
        lemma_peval_lin_comb(a1, b1, s, x);
        lemma_peval_unfold(a, x);
        lemma_peval_unfold(b, x);
        let pa = peval(a1, x);
        let pb = peval(b1, x);
        assert(peval(l, x) == l[0] + x * (pa + s * pb));
        assert(l[0] == coeff(a, 0) + s * coeff(b, 0));
        assert(coeff(a, 0) + s * coeff(b, 0) + x * (pa + s * pb) == (coeff(a, 0) + x * pa) + s * (
        coeff(b, 0) + x * pb)) by (nonlinear_arith);
    }
}

/// In the field: `(a + s b)(x) = a(x) + s b(x)`.
pub proof fn lemma_feval_lin_comb(a: Seq<int>, b: Seq<int>, s: int, x: int)
    ensures
        feval(lin_comb(a, b, s), x) == fadd(feval(a, x), fmul(s, feval(b, x))),
{
    lemma_peval_lin_comb(a, b, s, x);
    lemma_mod_range(peval(a, x));
    lemma_mod_range(peval(b, x));
    lemma_ops_eqm(s, feval(b, x));
    lemma_eqm_mul(s, feval(b, x), s, peval(b, x));
    lemma_ops_eqm(feval(a, x), fmul(s, feval(b, x)));
    lemma_eqm_add(feval(a, x), fmul(s, feval(b, x)), peval(a, x), s * peval(b, x));
    lemma_mod_range(peval(a, x) + s * peval(b, x));
    lemma_eqm_canon_eq(
        feval(lin_comb(a, b, s), x),
        fadd(feval(a, x), fmul(s, feval(b, x))),
    );
}

/// The entries of a codeword of low degree are canonical.
pub proof fn lemma_low_degree_canon(v: Seq<int>, lb: nat)
    requires
        low_degree(v, lb),
    ensures
        forall|j: int| 0 <= j < v.len() ==> canon(#[trigger] v[j]),
{
    let c = choose|c: Seq<int>| c.len() * exp2(lb) <= v.len() && #[trigger] evaluates(v, c);
    assert forall|j: int| 0 <= j < v.len() implies canon(#[trigger] v[j]) by {
        assert(v[j] == feval(c, lde_point(j as nat, log2(v.len()))));
        lemma_mod_range(peval(c, lde_point(j as nat, log2(v.len()))));
    }
}

/// `g^(r + 2^k) = -g^r` for the generator `g` of order `2^(k + 1)`.
proof fn lemma_lde_point_opposite(r: nat, k: nat)
    requires
        k + 1 <= 27,
    ensures
        fpow(two_adic_gen(k + 1), r + exp2(k)) == fneg(fpow(two_adic_gen(k + 1), r)),
{
    let g = two_adic_gen(k + 1);
    let x = fpow(g, r);
    lemma_fpow_add(g, r, exp2(k));
    lemma_two_adic_gen_pow2(k + 1, k);
    assert(((k + 1) - k) as nat == 1);
    lemma_two_adic_gen(1);
    assert(x * (p() - 1) == p() * x + (-x)) by (nonlinear_arith);
    vstd::arithmetic::div_mod::lemma_mod_multiples_vanish(x, -x, p());
}

/// `fold_even_odd` of the evaluations of `p` on the subgroup of order `2^(k + 1)` gives the
/// evaluations of `p_even + beta p_odd` on the subgroup of order `2^k`, both in bit-reversed
/// order.
pub proof fn lemma_fold_even_odd_evaluates(v: Seq<int>, c: Seq<int>, beta: int, k: nat)
    requires
        k + 1 <= 27,
        v.len() == exp2(k + 1),
        evaluates(v, c),
        canon(beta),
    ensures
        fold_even_odd_spec(v, beta).len() == exp2(k),
        evaluates(fold_even_odd_spec(v, beta), lin_comb(even_coeffs(c), odd_coeffs(c), beta)),
{
    lemma_log2_exp2(k + 1);
    lemma_log2_exp2(k);
    assert(exp2(k + 1) == 2 * exp2(k));
    assert forall|i: int| 0 <= i < exp2(k) implies v[2 * i] == #[trigger] feval(
        c,
        fold_point(i as nat, k),
    ) && v[2 * i + 1] == feval(c, fneg(fold_point(i as nat, k))) by {
        crate::bits::lemma_rev_bits_even_odd(i as nat, k);
        assert(log2(v.len()) == k + 1);
        assert(v[2 * i] == feval(c, lde_point((2 * i) as nat, k + 1)));
        assert(v[2 * i + 1] == feval(c, lde_point((2 * i + 1) as nat, k + 1)));
        lemma_lde_point_opposite(rev_bits(i as nat, k), k);
        assert(lde_point((2 * i) as nat, k + 1) == fold_point(i as nat, k));
        assert(lde_point((2 * i + 1) as nat, k + 1) == fneg(fold_point(i as nat, k)));
    }
    law_fold_even_odd_folds_polynomial(c, v, beta, k);
    let f = fold_even_odd_spec(v, beta);
    let c2 = lin_comb(even_coeffs(c), odd_coeffs(c), beta);
    assert forall|i: int| 0 <= i < f.len() implies f[i] == #[trigger] feval(
        c2,
        lde_point(i as nat, log2(f.len())),
    ) by {
        let g = two_adic_gen(k + 1);
        let r = rev_bits(i as nat, k);
        lemma_two_adic_gen(k + 1);
        lemma_fpow_mul_base(g, g, r);
        assert(fmul(fold_point(i as nat, k), fold_point(i as nat, k)) == lde_point(i as nat, k));
        lemma_feval_lin_comb(even_coeffs(c), odd_coeffs(c), beta, lde_point(i as nat, k));
    }
}

/// **Folding by two keeps the degree low.** `fold_even_odd` of a codeword of rate
/// `2^-log_blowup` and length `2^(k + 1)`, `k >= log_blowup`, is a codeword of the same rate:
/// of `p_even + beta p_odd`, which has half the coefficients of `p`.
pub proof fn law_fold_even_odd_keeps_low_degree(v: Seq<int>, beta: int, k: nat, lb: nat)
    requires
        k + 1 <= 27,
        lb <= k,
        v.len() == exp2(k + 1),
        low_degree(v, lb),
        canon(beta),
    ensures
        fold_even_odd_spec(v, beta).len() == exp2(k),
        low_degree(fold_even_odd_spec(v, beta), lb),
{
    let c = choose|c: Seq<int>| c.len() * exp2(lb) <= v.len() && #[trigger] evaluates(v, c);
    lemma_fold_even_odd_evaluates(v, c, beta, k);
    let f = fold_even_odd_spec(v, beta);
    let c2 = lin_comb(even_coeffs(c), odd_coeffs(c), beta);
    assert(evaluates(f, c2));
    // p has at most 2^(k + 1 - lb) coefficients, so p_even + beta p_odd at most 2^(k - lb)
    assert(c2.len() == (c.len() + 1) / 2);
    assert(exp2(k + 1) == 2 * exp2(k));
    crate::bits::lemma_exp2_divides(lb, k);
    let m = exp2((k - lb) as nat);
    assert(exp2(k) == m * exp2(lb));
    lemma_exp2_pos(lb);
    assert(c.len() * exp2(lb) <= 2 * (m * exp2(lb)));
    assert(c.len() <= 2 * m) by (nonlinear_arith)
        requires
            c.len() * exp2(lb) <= 2 * (m * exp2(lb)),
            exp2(lb) > 0,
    ;
    assert(c2.len() <= m);
    assert(c2.len() * exp2(lb) <= m * exp2(lb)) by (nonlinear_arith)
        requires
            c2.len() <= m,
            exp2(lb) > 0,
    ;
    crate::bits::lemma_exp2_is_pow2(k);
}

/// `fold_even_odd` applied `n` times to a codeword of length `2^(a + n)`, `a >= log_blowup`,
/// keeps the degree low.
proof fn lemma_iterated_fold_keeps_low_degree(v: Seq<int>, beta: int, a: nat, n: nat, lb: nat)
    requires
        a + n <= 27,
        lb <= a,
        v.len() == exp2(a + n),
        low_degree(v, lb),
        canon(beta),
    ensures
        iterated_fold_even_odd(v, beta, n).len() == exp2(a),
        low_degree(iterated_fold_even_odd(v, beta, n), lb),
    decreases n,
{
    if n == 0 {
        assert(a + 0 == a);
    } else {
        let n1 = (n - 1) as nat;
        assert(a + n == (a + n1) + 1);
        law_fold_even_odd_keeps_low_degree(v, beta, (a + n1) as nat, lb);
        lemma_ops_eqm(beta, beta);
        lemma_iterated_fold_keeps_low_degree(fold_even_odd_spec(v, beta), fmul(beta, beta), a, n1, lb);
    }
}

/// **Folding keeps the degree low.** `fold` by `2^n` of a codeword of rate `2^-log_blowup`
/// and length `2^(a + n)`, `a >= log_blowup`, is a codeword of the same rate.
pub proof fn law_fold_keeps_low_degree(v: Seq<int>, beta: int, a: nat, n: nat, lb: nat)
    requires
        a + n <= 27,
        lb <= a,
        v.len() == exp2(a + n),
        low_degree(v, lb),
        canon(beta),
    ensures
        fold_spec(v, beta, n).len() == exp2(a),
        low_degree(fold_spec(v, beta, n), lb),
{
    lemma_low_degree_canon(v, lb);
    law_fold_is_iterated_fold_even_odd(v, beta, a, n);
    lemma_iterated_fold_keeps_low_degree(v, beta, a, n, lb);
}

/// **The sum of two codewords of low degree is of low degree**: of the sum of the
/// polynomials.
pub proof fn law_vadd_keeps_low_degree(u: Seq<int>, w: Seq<int>, lb: nat)
    requires
        u.len() == w.len(),
        low_degree(u, lb),
        low_degree(w, lb),
    ensures
        vadd(u, w).len() == u.len(),
        low_degree(vadd(u, w), lb),
{
    let cu = choose|c: Seq<int>| c.len() * exp2(lb) <= u.len() && #[trigger] evaluates(u, c);
    let cw = choose|c: Seq<int>| c.len() * exp2(lb) <= w.len() && #[trigger] evaluates(w, c);
    let s = vadd(u, w);
    let c = lin_comb(cu, cw, 1);
    assert forall|i: int| 0 <= i < s.len() implies s[i] == #[trigger] feval(
        c,
        lde_point(i as nat, log2(s.len())),
    ) by {
        let x = lde_point(i as nat, log2(s.len()));
        assert(u[i] == feval(cu, x));
        assert(w[i] == feval(cw, x));
        lemma_feval_lin_comb(cu, cw, 1, x);
        lemma_mod_range(peval(cw, x));
        crate::field::lemma_fmul_one_left(feval(cw, x));
    }
    assert(evaluates(s, c));
}

/// **With `blowup` evaluations left, a codeword of low degree is constant**: it evaluates a
/// polynomial of degree zero.
pub proof fn law_low_degree_blowup_is_constant(v: Seq<int>, lb: nat)
    requires
        v.len() == exp2(lb),
        low_degree(v, lb),
    ensures
        is_constant(v),
{
    let c = choose|c: Seq<int>| c.len() * exp2(lb) <= v.len() && #[trigger] evaluates(v, c);
    lemma_exp2_pos(lb);
    assert(c.len() <= 1) by (nonlinear_arith)
        requires
            c.len() * exp2(lb) <= exp2(lb),
            exp2(lb) > 0,
    ;
    assert forall|i: int| 0 <= i < v.len() implies #[trigger] v[i] == v[0] by {
        let x = lde_point(i as nat, log2(v.len()));
        let x0 = lde_point(0, log2(v.len()));
        assert(v[i] == feval(c, x));
        assert(v[0] == feval(c, x0));
        lemma_peval_unfold(c, x);
        lemma_peval_unfold(c, x0);
        assert(tail(c).len() == 0);
        assert(peval(tail(c), x) == 0);
        assert(peval(tail(c), x0) == 0);
        assert(x * 0 == 0 && x0 * 0 == 0) by (nonlinear_arith);
    }
}

// ---------------------------------------------------------------------------------------------
// What `fold` computes
/// `b^e` over the integers.
pub open spec fn ipow(b: int, e: nat) -> int
    decreases e,
{
    if e == 0 {
        1
    } else {
        b * ipow(b, (e - 1) as nat)
    }
}

/// `sum_{i < len} beta^i c_(start + i)`, the coefficients beyond the end of `c` being zero.
pub open spec fn block_sum(c: Seq<int>, beta: int, start: int, len: nat) -> int
    decreases len,
{
    if len == 0 {
        0
    } else {
        block_sum(c, beta, start, (len - 1) as nat) + ipow(beta, (len - 1) as nat) * coeff(
            c,
            start + len - 1,
        )
    }
}

/// The coefficients of `p'(x) = sum_{i < 2^n} beta^i p_i(x)`, where
/// `p(x) = sum_{i < 2^n} x^i p_i(x^(2^n))` has the coefficients `c`: coefficient `j` of `p'` is
/// `sum_{i < 2^n} beta^i c_(2^n j + i)` (the last ones are zero).
pub open spec fn fold_coeffs(c: Seq<int>, beta: int, n: nat) -> Seq<int> {
    Seq::new(c.len(), |j: int| block_sum(c, beta, j * exp2(n), exp2(n)))
}

/// Coefficient sequences that agree modulo `p` (beyond their ends, with zero) give the same
/// values.
proof fn lemma_feval_coeff_eqm(c: Seq<int>, d: Seq<int>, x: int)
    requires
        forall|j: int| 0 <= j ==> eqm(#[trigger] coeff(c, j), coeff(d, j)),
    ensures
        feval(c, x) == feval(d, x),
        eqm(peval(c, x), peval(d, x)),
    decreases c.len() + d.len(),
{
    if c.len() > 0 || d.len() > 0 {
        let c1 = tail(c);
        let d1 = tail(d);
        assert forall|j: int| 0 <= j implies eqm(#[trigger] coeff(c1, j), coeff(d1, j)) by {
            assert(coeff(c1, j) == coeff(c, j + 1));
            assert(coeff(d1, j) == coeff(d, j + 1));
        }
        lemma_feval_coeff_eqm(c1, d1, x);
        lemma_peval_unfold(c, x);
        lemma_peval_unfold(d, x);
        assert(eqm(coeff(c, 0), coeff(d, 0)));
        lemma_eqm_mul(x, peval(c1, x), x, peval(d1, x));
        lemma_eqm_add(coeff(c, 0), x * peval(c1, x), coeff(d, 0), x * peval(d1, x));
    }
}

/// `(b^2)^h = b^(2h)`.
proof fn lemma_pow_square(b: int, h: nat)
    ensures
        ipow(b * b, h) == ipow(b, 2 * h),
    decreases h,
{
    if h > 0 {
        let h1 = (h - 1) as nat;
        lemma_pow_square(b, h1);
        assert((2 * h - 1) as nat == 2 * h1 + 1);
        assert(ipow(b, 2 * h) == b * ipow(b, (2 * h1 + 1) as nat));
        assert(ipow(b, (2 * h1 + 1) as nat) == b * ipow(b, 2 * h1));
        assert((b * b) * ipow(b, 2 * h1) == b * (b * ipow(b, 2 * h1))) by (nonlinear_arith);
    }
}

/// Congruent bases give congruent powers.
proof fn lemma_pow_eqm(a: int, b: int, e: nat)
    requires
        eqm(a, b),
    ensures
        eqm(ipow(a, e), ipow(b, e)),
    decreases e,
{
    if e > 0 {
        lemma_pow_eqm(a, b, (e - 1) as nat);
        lemma_eqm_mul(a, ipow(a, (e - 1) as nat), b, ipow(b, (e - 1) as nat));
    }
}

/// Congruent bases give congruent block sums.
proof fn lemma_block_sum_eqm(c: Seq<int>, a: int, b: int, start: int, len: nat)
    requires
        eqm(a, b),
    ensures
        eqm(block_sum(c, a, start, len), block_sum(c, b, start, len)),
    decreases len,
{
    if len > 0 {
        let l1 = (len - 1) as nat;
        lemma_block_sum_eqm(c, a, b, start, l1);
        lemma_pow_eqm(a, b, l1);
        lemma_eqm_mul(ipow(a, l1), coeff(c, start + len - 1), ipow(b, l1), coeff(c, start + len - 1));
        lemma_eqm_add(
            block_sum(c, a, start, l1),
            ipow(a, l1) * coeff(c, start + len - 1),
            block_sum(c, b, start, l1),
            ipow(b, l1) * coeff(c, start + len - 1),
        );
    }
}

/// A block beyond the end of `c` sums to zero.
proof fn lemma_block_sum_beyond(c: Seq<int>, b: int, start: int, len: nat)
    requires
        start >= c.len(),
    ensures
        block_sum(c, b, start, len) == 0,
    decreases len,
{
    if len > 0 {
        lemma_block_sum_beyond(c, b, start, (len - 1) as nat);
        assert(ipow(b, (len - 1) as nat) * 0 == 0) by (nonlinear_arith);
    }
}

/// Coefficient `k` of `p_even + b p_odd` is `c_(2k) + b c_(2k + 1)`.
proof fn lemma_coeff_even_odd(c: Seq<int>, b: int, k: int)
    requires
        k >= 0,
    ensures
        coeff(lin_comb(even_coeffs(c), odd_coeffs(c), b), k) == coeff(c, 2 * k) + b * coeff(c, 2 * k + 1),
{
    let l = lin_comb(even_coeffs(c), odd_coeffs(c), b);
    if k >= l.len() {
        assert(2 * k >= c.len());
        assert(b * 0 == 0) by (nonlinear_arith);
    }
}

/// Folding by two, then by `2^h` with `b^2`: block `s` of `p_even + b p_odd` with `b^2` is
/// block `2s` of `p` with `b`, twice as long.
proof fn lemma_block_sum_even_odd(c: Seq<int>, b: int, s: int, h: nat)
    requires
        s >= 0,
    ensures
        block_sum(lin_comb(even_coeffs(c), odd_coeffs(c), b), b * b, s, h) == block_sum(c, b, 2 * s, 2 * h),
    decreases h,
{
    let c1 = lin_comb(even_coeffs(c), odd_coeffs(c), b);
    if h > 0 {
        let h1 = (h - 1) as nat;
        lemma_block_sum_even_odd(c, b, s, h1);
        lemma_coeff_even_odd(c, b, s + h1);
        lemma_pow_square(b, h1);
        let e = ipow(b, 2 * h1);
        let x = coeff(c, 2 * s + 2 * h1);
        let y = coeff(c, 2 * s + 2 * h1 + 1);
        assert(block_sum(c, b, 2 * s, 2 * h) == block_sum(c, b, 2 * s, (2 * h1 + 1) as nat) + ipow(
            b,
            (2 * h1 + 1) as nat,
        ) * y);
        assert(block_sum(c, b, 2 * s, (2 * h1 + 1) as nat) == block_sum(c, b, 2 * s, 2 * h1) + e * x);
        assert(ipow(b, (2 * h1 + 1) as nat) == b * e);
        assert(coeff(c1, s + h1) == x + b * y);
        assert(e * (x + b * y) == e * x + (b * e) * y) by (nonlinear_arith);
    }
}

/// `fold_even_odd` applied `n` times, `beta` squared each time, gives the evaluations of
/// `sum_{i < 2^n} beta^i p_i`.
proof fn lemma_iterated_fold_evaluates(v: Seq<int>, c: Seq<int>, beta: int, a: nat, n: nat)
    requires
        a + n <= 27,
        v.len() == exp2(a + n),
        evaluates(v, c),
        canon(beta),
    ensures
        iterated_fold_even_odd(v, beta, n).len() == exp2(a),
        evaluates(iterated_fold_even_odd(v, beta, n), fold_coeffs(c, beta, n)),
    decreases n,
{
    if n == 0 {
        assert(a + 0 == a);
        assert(exp2(0) == 1);
        assert forall|j: int| 0 <= j < c.len() implies #[trigger] fold_coeffs(c, beta, 0)[j] == c[j] by {
            assert(j * 1 == j);
            assert(block_sum(c, beta, j, 0) == 0);
            assert(ipow(beta, 0) == 1);
            assert(block_sum(c, beta, j, 1) == 0 + 1 * coeff(c, j));
        }
        assert(fold_coeffs(c, beta, 0) =~= c);
    } else {
        let n1 = (n - 1) as nat;
        let b2 = fmul(beta, beta);
        assert(a + n == (a + n1) + 1);
        lemma_fold_even_odd_evaluates(v, c, beta, (a + n1) as nat);
        let f = fold_even_odd_spec(v, beta);
        let c1 = lin_comb(even_coeffs(c), odd_coeffs(c), beta);
        lemma_ops_eqm(beta, beta);
        lemma_iterated_fold_evaluates(f, c1, b2, a, n1);
        let w = iterated_fold_even_odd(v, beta, n);
        assert(w == iterated_fold_even_odd(f, b2, n1));
        let h = exp2(n1);
        assert(exp2(n) == 2 * h);
        // the coefficients agree modulo p
        let lhs = fold_coeffs(c1, b2, n1);
        let rhs = fold_coeffs(c, beta, n);
        assert forall|j: int| 0 <= j implies eqm(#[trigger] coeff(lhs, j), coeff(rhs, j)) by {
            assert(c1.len() == (c.len() + 1) / 2);
            if j < c1.len() {
                lemma_block_sum_eqm(c1, b2, beta * beta, j * h, h);
                lemma_block_sum_even_odd(c, beta, j * h, h);
                assert(j * h >= 0) by (nonlinear_arith)
                    requires
                        j >= 0,
                ;
                assert(2 * (j * h) == j * exp2(n)) by (nonlinear_arith)
                    requires
                        exp2(n) == 2 * h,
                ;
                assert(coeff(lhs, j) == block_sum(c1, b2, j * h, h));
                assert(coeff(rhs, j) == block_sum(c, beta, j * exp2(n), exp2(n)));
            } else if j < c.len() {
                lemma_exp2_pos(n1);
                assert(j * exp2(n) >= 2 * j) by (nonlinear_arith)
                    requires
                        exp2(n) == 2 * h,
                        h >= 1,
                        j >= 0,
                ;
                lemma_block_sum_beyond(c, beta, j * exp2(n), exp2(n));
            }
        }
        assert forall|i: int| 0 <= i < w.len() implies w[i] == #[trigger] feval(
            rhs,
            lde_point(i as nat, log2(w.len())),
        ) by {
            lemma_feval_coeff_eqm(lhs, rhs, lde_point(i as nat, log2(w.len())));
        }
    }
}

/// **`fold` folds a polynomial.** If `v` holds the bit-reversed evaluations of
/// `p(x) = sum_{i < 2^n} x^i p_i(x^(2^n))` on the subgroup of order `2^(a + n)`, then `fold` by
/// `2^n` gives the bit-reversed evaluations of `p'(x) = sum_{i < 2^n} beta^i p_i(x)` on the
/// subgroup of order `2^a`.
pub proof fn law_fold_folds_polynomial(v: Seq<int>, c: Seq<int>, beta: int, a: nat, n: nat)
    requires
        a + n <= 27,
        v.len() == exp2(a + n),
        evaluates(v, c),
        canon(beta),
    ensures
        fold_spec(v, beta, n).len() == exp2(a),
        evaluates(fold_spec(v, beta, n), fold_coeffs(c, beta, n)),
{
    assert forall|j: int| 0 <= j < v.len() implies canon(#[trigger] v[j]) by {
        assert(v[j] == feval(c, lde_point(j as nat, log2(v.len()))));
        lemma_mod_range(peval(c, lde_point(j as nat, log2(v.len()))));
    }
    law_fold_is_iterated_fold_even_odd(v, beta, a, n);
    lemma_iterated_fold_evaluates(v, c, beta, a, n);
}

/// **`fold_quad` folds a polynomial by four.** If `v` holds the bit-reversed evaluations of
/// `p(x) = sum_{i < 4} x^i p_i(x^4)` on the subgroup of order `2^(a + 2)`, then `fold_quad`
/// gives the bit-reversed evaluations of `p_0 + beta p_1 + beta^2 p_2 + beta^3 p_3` on the
/// subgroup of order `2^a`.
pub proof fn law_fold_quad_folds_polynomial(v: Seq<int>, c: Seq<int>, beta: int, a: nat)
    requires
        a + 2 <= 27,
        v.len() == exp2(a + 2),
        evaluates(v, c),
        canon(beta),
    ensures
        fold_quad_spec(v, beta).len() == exp2(a),
        evaluates(fold_quad_spec(v, beta), fold_coeffs(c, beta, 2)),
{
    assert forall|j: int| 0 <= j < v.len() implies canon(#[trigger] v[j]) by {
        assert(v[j] == feval(c, lde_point(j as nat, log2(v.len()))));
        lemma_mod_range(peval(c, lde_point(j as nat, log2(v.len()))));
    }
    law_fold_arity_four_is_fold_quad(v, beta);
    law_fold_folds_polynomial(v, c, beta, a, 2);
}

/// A block read from its first coefficient: `c_s + b (c_(s+1) + b c_(s+2) + ...)`.
proof fn lemma_block_sum_front(c: Seq<int>, b: int, start: int, len: nat)
    requires
        len >= 1,
    ensures
        block_sum(c, b, start, len) == coeff(c, start) + b * block_sum(c, b, start + 1, (len - 1) as nat),
    decreases len,
{
    if len == 1 {
        assert(block_sum(c, b, start + 1, 0) == 0);
        assert(ipow(b, 0) == 1);
        assert(block_sum(c, b, start, 1) == block_sum(c, b, start, 0) + ipow(b, 0) * coeff(c, start));
        assert(b * 0 == 0) by (nonlinear_arith);
    } else {
        let l1 = (len - 1) as nat;
        let l2 = (len - 2) as nat;
        lemma_block_sum_front(c, b, start, l1);
        let x = block_sum(c, b, start + 1, l2);
        let y = ipow(b, l2);
        let z = coeff(c, start + len - 1);
        assert(block_sum(c, b, start + 1, l1) == x + y * z);
        assert(ipow(b, l1) == b * y);
        assert(block_sum(c, b, start, len) == block_sum(c, b, start, l1) + ipow(b, l1) * z);
        assert(b * (x + y * z) == b * x + (b * y) * z) by (nonlinear_arith);
    }
}

/// Moving the start of a block by one is dropping the first coefficient.
proof fn lemma_block_sum_shift(c: Seq<int>, b: int, len: nat)
    requires
        c.len() >= 1,
    ensures
        block_sum(c, b, 1, len) == block_sum(c.drop_first(), b, 0, len),
    decreases len,
{
    if len > 0 {
        lemma_block_sum_shift(c, b, (len - 1) as nat);
        assert(coeff(c, 1 + len - 1) == coeff(c.drop_first(), 0 + len - 1));
    }
}

/// A block from the start that covers all of `c` is `p(b)` over the integers.
proof fn lemma_block_sum_is_peval(c: Seq<int>, b: int, len: nat)
    requires
        c.len() <= len,
    ensures
        block_sum(c, b, 0, len) == peval(c, b),
    decreases c.len(),
{
    if c.len() == 0 {
        lemma_block_sum_beyond(c, b, 0, len);
    } else {
        lemma_block_sum_front(c, b, 0, len);
        lemma_block_sum_shift(c, b, (len - 1) as nat);
        lemma_block_sum_is_peval(c.drop_first(), b, (len - 1) as nat);
    }
}

/// A polynomial of zero coefficients is zero.
proof fn lemma_peval_zero(c: Seq<int>, x: int)
    requires
        forall|j: int| 0 <= j < c.len() ==> #[trigger] c[j] == 0,
    ensures
        peval(c, x) == 0,
    decreases c.len(),
{
    if c.len() > 0 {
        assert forall|j: int| 0 <= j < c.drop_first().len() implies #[trigger] c.drop_first()[j] == 0 by {
            assert(c.drop_first()[j] == c[j + 1]);
        }
        lemma_peval_zero(c.drop_first(), x);
        assert(x * 0 == 0) by (nonlinear_arith);
    }
}

/// **A row fold interpolates.** If the `2^n` entries of `e` are the bit-reversed evaluations,
/// on the subgroup of order `2^n`, of a polynomial `p` with at most `2^n` coefficients `c`,
/// then `fold_row_large` with the inverse roots of unity of order `2^n`, the power one and the
/// factor `1 / 2^n` gives `p(beta)`: the butterflies compute the inverse transform of the row.
pub proof fn law_fold_row_large_interpolates(e: Seq<int>, c: Seq<int>, beta: int, n: nat)
    requires
        n <= 27,
        e.len() == exp2(n),
        c.len() <= exp2(n),
        evaluates(e, c),
        canon(beta),
    ensures
        fold_row_large_spec(e, roots_inv_spec(n), 1, beta, finv(exp2(n) as int), n) == feval(c, beta),
{
    law_fold_folds_polynomial(e, c, beta, 0, n);
    lemma_exp2_values();
    lemma_exp2_pos(n);
    let f = fold_spec(e, beta, n);
    let fc = fold_coeffs(c, beta, n);
    assert((0 + n) as nat == n);
    assert(e.len() / exp2(n) == 1) by {
        vstd::arithmetic::div_mod::lemma_div_by_self(exp2(n) as int);
    }
    assert(log2(1) == 0) by {
        lemma_log2_exp2(0);
    }
    assert(rev_bits(0, 0) == 0);
    assert(row_vals(e, 0, exp2(n)) =~= e);
    assert(f[0] == fold_row_large_spec(e, roots_inv_spec(n), 1, beta, finv(exp2(n) as int), n));
    assert(lde_point(0, 0) == 1);
    assert(f[0] == feval(fc, 1));
    if c.len() == 0 {
        assert(fc.len() == 0);
    } else {
        assert forall|j: int| 0 <= j < fc.drop_first().len() implies #[trigger] fc.drop_first()[j] == 0 by {
            assert(fc.drop_first()[j] == fc[j + 1]);
            assert((j + 1) * exp2(n) >= exp2(n)) by (nonlinear_arith)
                requires
                    j >= 0,
                    exp2(n) >= 1,
            ;
            lemma_block_sum_beyond(c, beta, (j + 1) * exp2(n), exp2(n));
        }
        lemma_peval_zero(fc.drop_first(), 1);
        assert(fc[0] == block_sum(c, beta, 0int * exp2(n), exp2(n)));
        assert(0int * exp2(n) == 0);
        lemma_block_sum_is_peval(c, beta, exp2(n));
        assert(peval(fc, 1) == peval(c, beta));
    }
}

/// `sum_j (c_j s^j) x^j = sum_j c_j (s x)^j` over the integers.
proof fn lemma_peval_scaled(c: Seq<int>, s: int, x: int)
    ensures
        peval(Seq::new(c.len(), |j: int| c[j] * ipow(s, j as nat)), x) == peval(c, s * x),
    decreases c.len(),
{
    if c.len() > 0 {
        let q = Seq::new(c.len(), |j: int| c[j] * ipow(s, j as nat));
        let c1 = c.drop_first();
        let q1 = Seq::new(c1.len(), |j: int| c1[j] * ipow(s, j as nat));
        lemma_peval_scaled(c1, s, x);
        assert(q.drop_first() =~= lin_comb(Seq::empty(), q1, s)) by {
            assert forall|j: int| 0 <= j < q1.len() implies #[trigger] q.drop_first()[j] == coeff(
                Seq::<int>::empty(),
                j,
            ) + s * coeff(q1, j) by {
                let y = ipow(s, j as nat);
                assert(ipow(s, (j + 1) as nat) == s * y);
                assert(c[j + 1] * (s * y) == s * (c1[j] * y)) by (nonlinear_arith)
                    requires
                        c[j + 1] == c1[j],
                ;
            }
        }
        lemma_peval_lin_comb(Seq::empty(), q1, s, x);
        let pp = peval(c1, s * x);
        assert(peval(Seq::<int>::empty(), x) == 0);
        assert(peval(q, x) == q[0] + x * peval(q.drop_first(), x));
        assert(ipow(s, 0) == 1);
        assert(q[0] == c[0] * ipow(s, 0));
        assert(q[0] == c[0]);
        assert(x * (s * pp) == (s * x) * pp) by (nonlinear_arith);
    }
}

/// **A row fold interpolates on a coset.** If the `2^n` entries of `e` are the bit-reversed
/// evaluations, on the coset `s` times the subgroup of order `2^n`, of a polynomial `p` with at
/// most `2^n` coefficients `c`, then `fold_row_large` with the inverse roots of unity of order
/// `2^n`, the power `1 / s` and the factor `1 / 2^n` gives `p(beta)`.
pub proof fn law_fold_row_large_interpolates_on_coset(
    e: Seq<int>,
    c: Seq<int>,
    s: int,
    s_inv: int,
    beta: int,
    n: nat,
)
    requires
        n <= 27,
        e.len() == exp2(n),
        c.len() <= exp2(n),
        canon(s_inv),
        fmul(s, s_inv) == 1,
        forall|i: int| 0 <= i < e.len() ==> e[i] == #[trigger] feval(c, fmul(s, lde_point(i as nat, n))),
        canon(beta),
    ensures
        fold_row_large_spec(e, roots_inv_spec(n), s_inv, beta, finv(exp2(n) as int), n) == feval(c, beta),
{
    let q = Seq::new(c.len(), |j: int| c[j] * ipow(s, j as nat));
    assert(log2(e.len()) == n) by {
        lemma_log2_exp2(n);
    }
    assert forall|i: int| 0 <= i < e.len() implies e[i] == #[trigger] feval(q, lde_point(i as nat, log2(e.len()))) by {
        let x = lde_point(i as nat, n);
        lemma_peval_scaled(c, s, x);
        lemma_mod_range(s * x);
        lemma_canon_mod(fmul(s, x));
        assert(eqm(s * x, fmul(s, x)));
        lemma_peval_eqm(c, s * x, fmul(s, x));
        assert(e[i] == feval(c, fmul(s, x)));
        assert(feval(q, x) == peval(c, s * x) % p());
        assert(lde_point(i as nat, log2(e.len())) == x);
    }
    let b1 = fmul(beta, s_inv);
    lemma_mod_range(beta * s_inv);
    law_fold_row_large_interpolates(e, q, b1, n);
    // the point: beta / s, met with 1 or with 1 / s
    lemma_canon_mod(b1);
    assert(fmul(b1, 1) == b1);
    // p(s (beta / s)) = p(beta)
    lemma_peval_scaled(c, s, b1);
    assert(eqm(s * b1, beta)) by {
        lemma_canon_mod(beta);
        lemma_eqm_mul(s, b1, s, beta * s_inv);
        assert(s * (beta * s_inv) == beta * (s * s_inv)) by (nonlinear_arith);
        lemma_eqm_mul(beta, s * s_inv, beta, 1);
    }
    lemma_peval_eqm(c, s * b1, beta);
}

// ---------------------------------------------------------------------------------------------
// The prover's codewords
/// Each input is a codeword of rate `2^-log_blowup` whose length is between `2^log_blowup`
/// and `2^27`.
pub open spec fn all_low_degree(inputs: Seq<Seq<int>>, log_blowup: nat) -> bool {
    forall|j: int|
        0 <= j < inputs.len() ==> low_degree(#[trigger] inputs[j], log_blowup) && log_blowup <= log2(
            inputs[j].len(),
        ) <= 27
}

/// The codeword of the commit phase stays of low degree, round after round, when the inputs
/// are: after `t` rounds it has `2^(l0 - t log_arity)` entries.
proof fn lemma_commit_state_low_degree(ins: Seq<Seq<int>>, betas: Seq<int>, la: nat, lb: nat, l0: nat)
    requires
        1 <= la,
        ins.len() >= 1,
        ins[0].len() == exp2(l0),
        l0 <= 27,
        lb + la * betas.len() <= l0,
        forall|q: int| 0 <= q < ins.len() ==> low_degree(#[trigger] ins[q], lb),
        forall|i: int| 0 <= i < betas.len() ==> canon(#[trigger] betas[i]),
    ensures
        commit_state(ins, betas, la).0.len() == exp2((l0 - la * betas.len()) as nat),
        low_degree(commit_state(ins, betas, la).0, lb),
    decreases betas.len(),
{
    if betas.len() == 0 {
        assert(la * 0 == 0) by (nonlinear_arith);
        assert(l0 - 0 == l0);
    } else {
        let n1 = (betas.len() - 1) as nat;
        let b1 = betas.drop_last();
        assert(la * betas.len() == la * n1 + la) by (nonlinear_arith)
            requires
                n1 == betas.len() - 1,
        ;
        assert(la * n1 >= 0) by (nonlinear_arith)
            requires
                la >= 1,
        ;
        lemma_commit_state_low_degree(ins, b1, la, lb, l0);
        let prev = commit_state(ins, b1, la);
        let a = (l0 - la * betas.len()) as nat;
        assert(a + la == (l0 - la * n1) as nat);
        assert(canon(betas.last()));
        law_fold_keeps_low_degree(prev.0, betas.last(), a, la, lb);
        let f = fold_spec(prev.0, betas.last(), la);
        let next = prev.1;
        if next < ins.len() && ins[next as int].len() == f.len() {
            law_vadd_keeps_low_degree(f, ins[next as int], lb);
        }
    }
}

/// The slots of the normalize phase hold codewords of low degree, of `2^s` entries in slot
/// `s`, none above the slot of an input of log-length `l0`; that slot is filled by the first
/// input.
proof fn lemma_normalize_slots_low_degree(inputs: Seq<Seq<int>>, betas: Seq<int>, lb: nat, la: nat, l0: nat)
    requires
        1 <= la,
        l0 <= 27,
        betas.len() == inputs.len(),
        forall|j: int|
            0 <= j < inputs.len() ==> low_degree(#[trigger] inputs[j], lb) && lb <= log2(inputs[j].len())
                <= l0,
        forall|j: int| 0 <= j < betas.len() ==> canon(#[trigger] betas[j]),
    ensures
        normalize_slots(inputs, betas, lb, la).len() == 32,
        forall|s: int|
            0 <= s < 32 ==> (#[trigger] normalize_slots(inputs, betas, lb, la)[s] matches Some(v) ==> v.len()
                == exp2(s as nat) && low_degree(v, lb)),
        forall|s: int|
            normalize_slot(l0, lb, la) < s < 32 ==> (#[trigger] normalize_slots(inputs, betas, lb, la)[s]) is None,
        inputs.len() >= 1 && log2(inputs[0].len()) == l0 ==> normalize_slots(inputs, betas, lb, la)[normalize_slot(
            l0,
            lb,
            la,
        ) as int] is Some,
    decreases inputs.len(),
{
    let slots = normalize_slots(inputs, betas, lb, la);
    if inputs.len() > 0 {
        let i1 = inputs.drop_last();
        let b1 = betas.drop_last();
        assert forall|j: int| 0 <= j < i1.len() implies low_degree(#[trigger] i1[j], lb) && lb <= log2(
            i1[j].len(),
        ) <= l0 by {
            assert(i1[j] == inputs[j]);
        }
        lemma_normalize_slots_low_degree(i1, b1, lb, la, l0);
        let prev = normalize_slots(i1, b1, lb, la);
        let c = inputs.last();
        let beta = betas.last();
        let l = log2(c.len());
        let n = num_normalize_folds(l, lb, la);
        let t = normalize_slot(l, lb, la);
        assert(low_degree(c, lb) && lb <= l <= l0);
        assert(canon(beta));
        crate::bits::lemma_pow2_log2(c.len());
        vstd::arithmetic::div_mod::lemma_mod_decreases((l - lb) as nat, la);
        assert(t == l - n && lb <= t);
        let cc = normalized_contribution(c, beta, lb, la);
        if n != 0 {
            assert(c.len() == exp2(t + n));
            law_fold_keeps_low_degree(c, beta, t, n, lb);
        } else {
            assert(t == l);
        }
        assert(cc.len() == exp2(t) && low_degree(cc, lb));
        crate::prover::lemma_slot_monotone(l, l0, lb, la);
        assert(t < 32);
        match prev[t as int] {
            Some(v) => {
                law_vadd_keeps_low_degree(v, cc, lb);
            },
            None => {},
        }
        assert forall|s: int| 0 <= s < 32 implies (#[trigger] slots[s] matches Some(v) ==> v.len()
            == exp2(s as nat) && low_degree(v, lb)) by {
            if s != t {
                assert(slots[s] == prev[s]);
            }
        }
        assert forall|s: int| normalize_slot(l0, lb, la) < s < 32 implies (#[trigger] slots[s]) is None by {
            assert(slots[s] == prev[s]);
        }
        if log2(inputs[0].len()) == l0 {
            let t0 = normalize_slot(l0, lb, la) as int;
            vstd::arithmetic::div_mod::lemma_mod_decreases((l0 - lb) as nat, la);
            if i1.len() >= 1 {
                assert(i1[0] == inputs[0]);
                if t0 != t {
                    assert(slots[t0] == prev[t0]);
                }
            } else {
                assert(c == inputs[0]);
            }
        }
    } else {
        assert(slots == Seq::new(32, |s: int| None::<Seq<int>>));
    }
}

/// The filled slots, from the highest down, are of low degree; the first is the highest
/// filled slot.
proof fn lemma_slots_descending_low_degree(slots: Seq<Option<Seq<int>>>, lb: nat, t0: int)
    requires
        forall|s: int| 0 <= s < slots.len() ==> (#[trigger] slots[s] matches Some(v) ==> low_degree(v, lb)),
    ensures
        forall|q: int|
            0 <= q < slots_descending(slots).len() ==> low_degree(#[trigger] slots_descending(slots)[q], lb),
        0 <= t0 < slots.len() && slots[t0] is Some && (forall|s: int| t0 < s < slots.len() ==> (#[trigger] slots[s]) is None)
            ==> slots_descending(slots).len() >= 1 && slots[t0] == Some(slots_descending(slots)[0]),
    decreases slots.len(),
{
    if slots.len() > 0 {
        let d = slots.drop_last();
        assert forall|s: int| 0 <= s < d.len() implies (#[trigger] d[s] matches Some(v) ==> low_degree(v, lb)) by {
            assert(d[s] == slots[s]);
        }
        lemma_slots_descending_low_degree(d, lb, t0);
        let out = slots_descending(slots);
        let rest = slots_descending(d);
        assert(slots[slots.len() - 1] == slots.last());
        match slots.last() {
            Some(v) => {
                assert(out == seq![v] + rest);
                assert forall|q: int| 0 <= q < out.len() implies low_degree(#[trigger] out[q], lb) by {
                    if q > 0 {
                        assert(out[q] == rest[q - 1]);
                    }
                }
            },
            None => {
                assert(out == rest);
            },
        }
        if 0 <= t0 < slots.len() && slots[t0] is Some && (forall|s: int| t0 < s < slots.len() ==> (#[trigger] slots[s]) is None) {
            if t0 < slots.len() - 1 {
                assert(slots.last() is None);
                assert(d[t0] == slots[t0]);
                assert forall|s: int| t0 < s < d.len() implies (#[trigger] d[s]) is None by {
                    assert(d[s] == slots[s]);
                }
            }
        }
    }
}

/// **The prover accepts inputs of low degree.** When each input is a codeword of rate
/// `2^-log_blowup` (the inputs sorted from the longest to the shortest), the codeword that
/// the commit phase ends with is constant and has `2^log_blowup` entries, whatever
/// challenges the normalize and commit phases drew.
pub proof fn law_low_degree_inputs_fold_to_constant(
    inputs: Seq<Seq<int>>,
    nbetas: Seq<int>,
    cbetas: Seq<int>,
    lb: nat,
    la: nat,
)
    requires
        1 <= la,
        inputs.len() >= 1,
        all_low_degree(inputs, lb),
        forall|j: int, k: int| 0 <= j < k < inputs.len() ==> (#[trigger] inputs[k]).len() <= (#[trigger] inputs[j]).len(),
        nbetas.len() == inputs.len(),
        all_canon(nbetas),
        cbetas.len() == (log2(inputs[0].len()) - lb) / (la as int),
        all_canon(cbetas),
    ensures
        final_codeword(inputs, nbetas, cbetas, lb, la).len() == exp2(lb),
        is_constant(final_codeword(inputs, nbetas, cbetas, lb, la)),
{
    let l0 = log2(inputs[0].len());
    assert(low_degree(inputs[0], lb));
    assert forall|j: int| 0 <= j < inputs.len() implies low_degree(#[trigger] inputs[j], lb) && lb <= log2(
        inputs[j].len(),
    ) <= l0 by {
        assert(low_degree(inputs[j], lb));
        crate::bits::lemma_pow2_log2(inputs[j].len());
        crate::bits::lemma_pow2_log2(inputs[0].len());
        if j > 0 {
            assert(inputs[j].len() <= inputs[0].len());
        }
        crate::bits::lemma_exp2_strict_inv(log2(inputs[j].len()), l0);
    }
    lemma_normalize_slots_low_degree(inputs, nbetas, lb, la, l0);
    let slots = normalize_slots(inputs, nbetas, lb, la);
    let t0 = normalize_slot(l0, lb, la);
    crate::prover::lemma_slot_monotone(l0, l0, lb, la);
    vstd::arithmetic::div_mod::lemma_mod_decreases((l0 - lb) as nat, la);
    assert(lb <= t0 <= l0);
    assert(slots[t0 as int] matches Some(v) ==> v.len() == exp2(t0) && low_degree(v, lb));
    lemma_slots_descending_low_degree(slots, lb, t0 as int);
    let normalized = slots_descending(slots);
    assert(normalized == normalized_inputs_spec(inputs, nbetas, lb, la));
    assert(normalized[0].len() == exp2(t0));
    // t0 = lb + la * cbetas.len()
    let q = (l0 - lb) as int / la as int;
    assert(t0 == lb + la * q);
    assert(la * q >= 0) by (nonlinear_arith)
        requires
            la >= 1,
            q >= 0,
    ;
    lemma_commit_state_low_degree(normalized, cbetas, la, lb, t0);
    let fin = commit_state(normalized, cbetas, la).0;
    assert(fin == final_codeword(inputs, nbetas, cbetas, lb, la));
    assert((t0 - la * cbetas.len()) as nat == lb);
    law_low_degree_blowup_is_constant(fin, lb);
}

} // verus!
