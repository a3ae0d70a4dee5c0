//! What the folds compute, stated over polynomials and proved: folding evaluations of `p` at
//! `x` and `-x` gives `p_even(x^2) + beta p_odd(x^2)`, and the folds of higher arity agree
//! with the binary fold.
use crate::bits::{exp2, lemma_exp2_values, lemma_log2_exp2, log2, rev_bits};
use crate::field::{
    canon, eqm, fadd, finv, fmul, fneg, fpow, fsub, lemma_canon_mod, lemma_eqm_add,
    lemma_eqm_canon_eq, lemma_eqm_mul, lemma_eqm_sub, lemma_finv_fpow, lemma_finv_unique,
    lemma_fmul_assoc, lemma_fmul_comm, lemma_fmul_one_left, lemma_fpow_range, lemma_mod_range,
    lemma_two_adic_gen_inv, p, two_adic_gen,
};
use crate::fold_even_odd::{
    bf_layer, butterflies, fold_even_odd_spec, fold_quad_spec, fold_row_binary_spec,
    fold_row_large_spec, fold_row_quad_spec, fold_spec, horner, quad_coeffs, roots_inv_spec,
    row_vals,
};
use vstd::arithmetic::div_mod::{lemma_fundamental_div_mod_converse, lemma_small_mod};
use vstd::prelude::*;

verus! {

// ---------------------------------------------------------------------------------------------
// Polynomials
/// The polynomial with coefficients `c` (lowest degree first) at `x`, over the integers.
pub open spec fn peval(c: Seq<int>, x: int) -> int
    decreases c.len(),
{
    if c.len() == 0 {
        0
    } else {
        c[0] + x * peval(c.drop_first(), x)
    }
}

/// The polynomial with coefficients `c` at `x`, in the field.
pub open spec fn feval(c: Seq<int>, x: int) -> int {
    peval(c, x) % p()
}

/// The coefficients of even degree: `p_even` with `p(x) = p_even(x^2) + x p_odd(x^2)`.
pub open spec fn even_coeffs(c: Seq<int>) -> Seq<int> {
    Seq::new(((c.len() + 1) / 2) as nat, |i: int| c[2 * i])
}

/// The coefficients of odd degree: `p_odd` with `p(x) = p_even(x^2) + x p_odd(x^2)`.
pub open spec fn odd_coeffs(c: Seq<int>) -> Seq<int> {
    Seq::new((c.len() / 2) as nat, |i: int| c[2 * i + 1])
}

/// `p(x) = p_even(x^2) + x p_odd(x^2)`.
pub proof fn lemma_peval_even_odd(c: Seq<int>, x: int)
    ensures
        peval(c, x) == peval(even_coeffs(c), x * x) + x * peval(odd_coeffs(c), x * x),
    decreases c.len(),
{
    let ev = even_coeffs(c);
    let od = odd_coeffs(c);
    if c.len() == 0 {
    } else if c.len() == 1 {
        assert(ev.len() == 1 && ev[0] == c[0]);
        assert(ev.drop_first().len() == 0);
        assert(od.len() == 0);
        assert(c.drop_first().len() == 0);
        assert(peval(c.drop_first(), x) == 0);
        assert(peval(c, x) == c[0] + x * 0);
        assert(peval(ev.drop_first(), x * x) == 0);
        assert(peval(ev, x * x) == c[0] + (x * x) * 0);
        assert(peval(od, x * x) == 0);
    } else {
        let r = c.drop_first().drop_first();
        lemma_peval_even_odd(r, x);
        assert(ev.drop_first() =~= even_coeffs(r));
        assert(od.drop_first() =~= odd_coeffs(r));
        let y = x * x;
        let e1 = peval(even_coeffs(r), y);
        let o1 = peval(odd_coeffs(r), y);
        let c0 = c[0];
        let c1 = c[1];
        assert(c.drop_first()[0] == c1);
        assert(peval(c.drop_first(), x) == c1 + x * peval(r, x));
        assert(peval(c, x) == c0 + x * (c1 + x * peval(r, x)));
        assert(ev[0] == c0 && od[0] == c1);
        assert(peval(ev, y) == c0 + y * e1);
        assert(peval(od, y) == c1 + y * o1);
        assert(peval(r, x) == e1 + x * o1);
        lemma_even_odd_step(c0, c1, x, e1, o1);
    }
}

proof fn lemma_even_odd_step(c0: int, c1: int, x: int, e1: int, o1: int)
    ensures
        c0 + x * (c1 + x * (e1 + x * o1)) == (c0 + (x * x) * e1) + x * (c1 + (x * x) * o1),
{
    assert(x * (c1 + x * (e1 + x * o1)) == x * c1 + x * (x * (e1 + x * o1))) by (nonlinear_arith);
    assert(x * (x * (e1 + x * o1)) == (x * x) * e1 + x * ((x * x) * o1)) by (nonlinear_arith);
    assert(x * (c1 + (x * x) * o1) == x * c1 + x * ((x * x) * o1)) by (nonlinear_arith);
}

/// `(h + s)(e + x o) + (h - s)(e - x o) = 2 h e + 2 s x o`.
proof fn lemma_binary_identity(h: int, s: int, e: int, x: int, o: int)
    ensures
        (h + s) * (e + x * o) + (h - s) * (e + (-x) * o) == (2 * h) * e + (2 * (s * x)) * o,
{
    assert((h + s) * (e + x * o) == h * e + h * (x * o) + s * e + s * (x * o)) by (nonlinear_arith);
    assert((h - s) * (e + (-x) * o) == h * e - h * (x * o) - s * e + s * (x * o))
        by (nonlinear_arith);
    assert(s * (x * o) == (s * x) * o) by (nonlinear_arith);
    assert((2 * h) * e == 2 * (h * e)) by (nonlinear_arith);
    assert((2 * (s * x)) * o == 2 * ((s * x) * o)) by (nonlinear_arith);
}

/// Evaluation at congruent points gives congruent values.
pub proof fn lemma_peval_eqm(c: Seq<int>, x: int, y: int)
    requires
        eqm(x, y),
    ensures
        eqm(peval(c, x), peval(c, y)),
    decreases c.len(),
{
    if c.len() > 0 {
        lemma_peval_eqm(c.drop_first(), x, y);
        lemma_eqm_mul(x, peval(c.drop_first(), x), y, peval(c.drop_first(), y));
        lemma_eqm_add(c[0], x * peval(c.drop_first(), x), c[0], y * peval(c.drop_first(), y));
    }
}

// ---------------------------------------------------------------------------------------------
// Small facts of the field operations
pub proof fn lemma_ops_eqm(a: int, b: int)
    ensures
        eqm(fadd(a, b), a + b),
        eqm(fsub(a, b), a - b),
        eqm(fmul(a, b), a * b),
        eqm(fneg(a), -a),
        canon(fadd(a, b)),
        canon(fsub(a, b)),
        canon(fmul(a, b)),
        canon(fneg(a)),
{
    lemma_mod_range(a + b);
    lemma_mod_range(a - b);
    lemma_mod_range(a * b);
    lemma_mod_range(-a);
}

/// The inverse of two is `(p + 1) / 2`.
pub proof fn lemma_half()
    ensures
        finv(2) == 1006632961,
        canon(finv(2)),
        fmul(2, finv(2)) == 1,
{
    assert(fmul(2, 1006632961) == 1);
    lemma_finv_unique(2, 1006632961);
}

pub proof fn lemma_finv_one()
    ensures
        finv(1) == 1,
{
    lemma_finv_unique(1, 1);
}

proof fn lemma_mul_assoc3(a: int, b: int, c: int)
    ensures
        (a * b) * c == a * (c * b),
{
    assert((a * b) * c == a * (c * b)) by (nonlinear_arith);
}

proof fn lemma_mul_swap2(b: int, h: int)
    ensures
        2 * (b * h) == b * (2 * h),
{
    assert(2 * (b * h) == b * (2 * h)) by (nonlinear_arith);
}

// ---------------------------------------------------------------------------------------------
/// The folding arithmetic, first step: `(h + s) r0 + (h - s) r1 = 2 h e + 2 s x o`.
proof fn lemma_binary_expand(h: int, s: int, x: int, e: int, o: int, r0: int, r1: int)
    requires
        eqm(r0, e + x * o),
        eqm(r1, e + (-x) * o),
    ensures
        eqm(fold_row_binary_spec(r0, r1, s, h), (2 * h) * e + (2 * (s * x)) * o),
{
    lemma_ops_eqm(h, s);
    lemma_eqm_mul(fadd(h, s), r0, h + s, e + x * o);
    lemma_eqm_mul(fsub(h, s), r1, h - s, e + (-x) * o);
    lemma_ops_eqm(fadd(h, s), r0);
    lemma_ops_eqm(fsub(h, s), r1);
    lemma_ops_eqm(fmul(fadd(h, s), r0), fmul(fsub(h, s), r1));
    lemma_eqm_add(
        fmul(fadd(h, s), r0),
        fmul(fsub(h, s), r1),
        (h + s) * (e + x * o),
        (h - s) * (e + (-x) * o),
    );
    lemma_binary_identity(h, s, e, x, o);
}

/// `2 s x = beta` for `s = beta h / x` and `2 h = 1`.
proof fn lemma_twice_s_x(h: int, s: int, x: int, xi: int, beta: int)
    requires
        eqm(2 * h, 1),
        s == fmul(fmul(beta, h), xi),
        eqm(x * xi, 1),
    ensures
        eqm(2 * (s * x), beta),
{
    lemma_ops_eqm(beta, h);
    lemma_ops_eqm(fmul(beta, h), xi);
    lemma_eqm_mul(fmul(beta, h), xi, beta * h, xi);
    lemma_eqm_mul(s, x, (beta * h) * xi, x);
    lemma_mul_assoc3(beta * h, xi, x);
    lemma_eqm_mul(beta * h, x * xi, beta * h, 1);
    assert(eqm(s * x, beta * h));
    lemma_eqm_mul(2, s * x, 2, beta * h);
    lemma_mul_swap2(beta, h);
    lemma_eqm_mul(beta, 2 * h, beta, 1);
}

/// The folding arithmetic: if `r0 = e + x o` and `r1 = e - x o`, folding them with
/// `s = beta / (2 x)` gives `e + beta o`.
proof fn lemma_binary_core(h: int, s: int, x: int, xi: int, beta: int, e: int, o: int, r0: int, r1: int)
    requires
        eqm(r0, e + x * o),
        eqm(r1, e + (-x) * o),
        eqm(2 * h, 1),
        s == fmul(fmul(beta, h), xi),
        eqm(x * xi, 1),
    ensures
        eqm(fold_row_binary_spec(r0, r1, s, h), e + beta * o),
{
    lemma_binary_expand(h, s, x, e, o, r0, r1);
    lemma_twice_s_x(h, s, x, xi, beta);
    lemma_eqm_mul(2 * h, e, 1, e);
    lemma_eqm_mul(2 * (s * x), o, beta, o);
    lemma_eqm_add((2 * h) * e, (2 * (s * x)) * o, 1 * e, beta * o);
}

/// **Binary folding.** For any polynomial `p` and any invertible `x`, folding the
/// evaluations `p(x)` and `p(-x)` with `shifted_g_inv_power = beta / (2 x)` and
/// `one_half = 1/2` gives `p_even(x^2) + beta * p_odd(x^2)`.
pub proof fn law_fold_row_binary_even_odd(c: Seq<int>, x: int, beta: int)
    requires
        canon(x),
        fmul(x, finv(x)) == 1,
        canon(beta),
    ensures
        fold_row_binary_spec(
            feval(c, x),
            feval(c, fneg(x)),
            fmul(fmul(beta, finv(2)), finv(x)),
            finv(2),
        ) == fadd(
            feval(even_coeffs(c), fmul(x, x)),
            fmul(beta, feval(odd_coeffs(c), fmul(x, x))),
        ),
{
    let h = finv(2);
    lemma_half();
    let xi = finv(x);
    let y = x * x;
    let e = peval(even_coeffs(c), y);
    let o = peval(odd_coeffs(c), y);
    let r0 = feval(c, x);
    let r1 = feval(c, fneg(x));
    let s = fmul(fmul(beta, h), xi);
    // r0 = e + x o and r1 = e - x o
    lemma_peval_even_odd(c, x);
    lemma_peval_even_odd(c, -x);
    assert((-x) * (-x) == x * x) by (nonlinear_arith);
    lemma_mod_range(peval(c, x));
    assert(eqm(r0, e + x * o));
    lemma_ops_eqm(0, x);
    lemma_peval_eqm(c, fneg(x), -x);
    lemma_mod_range(peval(c, fneg(x)));
    assert(eqm(r1, e + (-x) * o));
    assert(eqm(x * xi, 1));
    assert(eqm(2 * h, 1));
    lemma_binary_core(h, s, x, xi, beta, e, o, r0, r1);
    let lhs = fold_row_binary_spec(r0, r1, s, h);
    // the right-hand side
    lemma_ops_eqm(x, x);
    lemma_peval_eqm(even_coeffs(c), fmul(x, x), y);
    lemma_peval_eqm(odd_coeffs(c), fmul(x, x), y);
    let fe = feval(even_coeffs(c), fmul(x, x));
    let fo = feval(odd_coeffs(c), fmul(x, x));
    lemma_mod_range(peval(even_coeffs(c), fmul(x, x)));
    lemma_mod_range(peval(odd_coeffs(c), fmul(x, x)));
    lemma_ops_eqm(beta, fo);
    lemma_eqm_mul(beta, fo, beta, o);
    lemma_ops_eqm(fe, fmul(beta, fo));
    lemma_eqm_add(fe, fmul(beta, fo), e, beta * o);
    let rhs = fadd(fe, fmul(beta, fo));
    lemma_ops_eqm(fmul(fadd(h, s), r0), fmul(fsub(h, s), r1));
    lemma_eqm_canon_eq(lhs, rhs);
}


/// The point of the evaluation domain of size `2 * 2^k` that row `i` of the bit-reversed
/// evaluations of a `fold_even_odd` input stands for: `g^rev(i)`, `g` of order `2^(k+1)`.
pub open spec fn fold_point(i: nat, k: nat) -> int {
    fpow(two_adic_gen(k + 1), rev_bits(i, k))
}

/// **`fold_even_odd` folds a polynomial.** If row `i` of a matrix of height `2^k` holds
/// `p(x_i)` and `p(-x_i)` for `x_i = g^rev(i)` (bit-reversed evaluations of `p` on the
/// subgroup of order `2^(k+1)`), then entry `i` of the fold is
/// `p_even(x_i^2) + beta * p_odd(x_i^2)`.
pub proof fn law_fold_even_odd_folds_polynomial(c: Seq<int>, v: Seq<int>, beta: int, k: nat)
    requires
        k + 1 <= 27,
        v.len() == 2 * exp2(k),
        canon(beta),
        forall|i: int|
            0 <= i < exp2(k) ==> v[2 * i] == #[trigger] feval(c, fold_point(i as nat, k)) && v[2
                * i + 1] == feval(c, fneg(fold_point(i as nat, k))),
    ensures
        fold_even_odd_spec(v, beta).len() == exp2(k),
        forall|i: int|
            0 <= i < exp2(k) ==> #[trigger] fold_even_odd_spec(v, beta)[i] == fadd(
                feval(even_coeffs(c), fmul(fold_point(i as nat, k), fold_point(i as nat, k))),
                fmul(
                    beta,
                    feval(
                        odd_coeffs(c),
                        fmul(fold_point(i as nat, k), fold_point(i as nat, k)),
                    ),
                ),
            ),
{
    lemma_log2_exp2(k);
    let g = two_adic_gen(k + 1);
    lemma_two_adic_gen_inv(k + 1);
    lemma_half();
    assert(v.len() / 2 == exp2(k));
    assert forall|i: int| 0 <= i < exp2(k) implies #[trigger] fold_even_odd_spec(v, beta)[i]
        == fadd(
        feval(even_coeffs(c), fmul(fold_point(i as nat, k), fold_point(i as nat, k))),
        fmul(beta, feval(odd_coeffs(c), fmul(fold_point(i as nat, k), fold_point(i as nat, k)))),
    ) by {
        let r = rev_bits(i as nat, k);
        let x = fold_point(i as nat, k);
        lemma_finv_fpow(g, r);
        lemma_fpow_range(g, r);
        law_fold_row_binary_even_odd(c, x, beta);
    }
}

/// **Folding by two agrees with `fold_even_odd`.** `fold` with `log_arity = 1` computes
/// what `fold_even_odd` computes.
pub proof fn law_fold_arity_two_is_fold_even_odd(v: Seq<int>, beta: int)
    requires
        forall|j: int| 0 <= j < v.len() ==> canon(#[trigger] v[j]),
        canon(beta),
    ensures
        fold_spec(v, beta, 1) == fold_even_odd_spec(v, beta),
{
    lemma_exp2_values();
    lemma_half();
    let h = v.len() / 2;
    let k = log2(h);
    let a = fold_spec(v, beta, 1);
    let b = fold_even_odd_spec(v, beta);
    assert(a.len() == b.len());
    assert forall|i: int| 0 <= i < h implies a[i] == b[i] by {
        let e = row_vals(v, i, 2);
        assert(e[0] == v[2 * i] && e[1] == v[2 * i + 1]) by {
            assert(i * 2 == 2 * i);
        }
        let rinv = roots_inv_spec(1);
        assert(rinv[0] == 1) by {
            assert(rev_bits(0, 0) == 0);
            assert(rev_bits(0, 1) == 0 * exp2(0) + rev_bits(0, 0));
        }
        let gp = fpow(finv(two_adic_gen(k + 1)), rev_bits(i as nat, k));
        lemma_fpow_range(finv(two_adic_gen(k + 1)), rev_bits(i as nat, k));
        let bb = fmul(beta, gp);
        let hf = finv(2);
        // the butterfly of one layer: [e0 + e1, e0 - e1]
        let bf = butterflies(e, rinv, 1);
        assert(butterflies(e, rinv, 0) == e);
        assert(bf == bf_layer(e, rinv, 0));
        assert(bf.len() == 2);
        assert(bf[0] == fadd(e[0], e[1]));
        assert(bf[1] == fmul(1, fsub(e[0], e[1])));
        lemma_ops_eqm(e[0], e[1]);
        lemma_fmul_one_left(fsub(e[0], e[1]));
        // horner([u, w], bb) = u + w bb
        let u = fadd(e[0], e[1]);
        let w = fsub(e[0], e[1]);
        assert(bf.drop_first().drop_first().len() == 0);
        assert(horner(bf.drop_first().drop_first(), bb) == 0);
        assert(bf.drop_first()[0] == w);
        assert(horner(bf.drop_first(), bb) == fadd(fmul(0, bb), w));
        lemma_canon_mod(w);
        assert(horner(bf, bb) == fadd(fmul(w, bb), u));
        // both sides are congruent to hf (e0 + e1) + beta hf gp (e0 - e1)
        lemma_binary_two_forms(e[0], e[1], hf, beta, gp);
    }
    assert(a =~= b);
}

/// `(h + s) e0 + (h - s) e1 = ((e0 - e1) (beta gp) + (e0 + e1)) h` for `s = beta h gp`.
proof fn lemma_binary_two_forms(e0: int, e1: int, h: int, beta: int, gp: int)
    requires
        canon(e0),
        canon(e1),
        canon(h),
        canon(gp),
    ensures
        fold_row_binary_spec(e0, e1, fmul(fmul(beta, h), gp), h) == fmul(
            fadd(fmul(fsub(e0, e1), fmul(beta, gp)), fadd(e0, e1)),
            h,
        ),
{
    let s = fmul(fmul(beta, h), gp);
    let b = fmul(beta, gp);
    let lhs = fold_row_binary_spec(e0, e1, s, h);
    let rhs = fmul(fadd(fmul(fsub(e0, e1), b), fadd(e0, e1)), h);
    lemma_ops_eqm(h, s);
    lemma_ops_eqm(fadd(h, s), e0);
    lemma_ops_eqm(fsub(h, s), e1);
    lemma_ops_eqm(fmul(fadd(h, s), e0), fmul(fsub(h, s), e1));
    lemma_eqm_mul(fadd(h, s), e0, h + s, e0);
    lemma_eqm_mul(fsub(h, s), e1, h - s, e1);
    lemma_eqm_add(fmul(fadd(h, s), e0), fmul(fsub(h, s), e1), (h + s) * e0, (h - s) * e1);
    // lhs = h (e0 + e1) + s (e0 - e1)
    assert((h + s) * e0 + (h - s) * e1 == h * (e0 + e1) + s * (e0 - e1)) by (nonlinear_arith);
    // s = h b
    lemma_fmul_assoc(beta, h, gp);
    lemma_fmul_comm(h, gp);
    lemma_fmul_assoc(beta, gp, h);
    lemma_fmul_comm(b, h);
    assert(s == fmul(h, b));
    lemma_ops_eqm(h, b);
    lemma_eqm_mul(s, e0 - e1, h * b, e0 - e1);
    lemma_eqm_add(h * (e0 + e1), s * (e0 - e1), h * (e0 + e1), (h * b) * (e0 - e1));
    assert(h * (e0 + e1) + (h * b) * (e0 - e1) == ((e0 - e1) * b + (e0 + e1)) * h)
        by (nonlinear_arith);
    // rhs
    lemma_ops_eqm(e0, e1);
    lemma_ops_eqm(fsub(e0, e1), b);
    lemma_ops_eqm(fmul(fsub(e0, e1), b), fadd(e0, e1));
    lemma_ops_eqm(fadd(fmul(fsub(e0, e1), b), fadd(e0, e1)), h);
    lemma_eqm_mul(fsub(e0, e1), b, e0 - e1, b);
    lemma_eqm_add(fmul(fsub(e0, e1), b), fadd(e0, e1), (e0 - e1) * b, e0 + e1);
    lemma_eqm_mul(
        fadd(fmul(fsub(e0, e1), b), fadd(e0, e1)),
        h,
        (e0 - e1) * b + (e0 + e1),
        h,
    );
    lemma_eqm_canon_eq(lhs, rhs);
}


/// The butterflies of two layers on four values, with first inverse root `1`.
proof fn lemma_butterflies_four(e: Seq<int>, rinv: Seq<int>)
    requires
        e.len() == 4,
        rinv.len() >= 3,
        rinv[0] == 1,
    ensures
        butterflies(e, rinv, 2) == seq![
            fadd(fadd(e[0], e[1]), fadd(e[2], e[3])),
            fadd(fsub(e[0], e[1]), fmul(rinv[2], fsub(e[2], e[3]))),
            fmul(1, fsub(fadd(e[0], e[1]), fadd(e[2], e[3]))),
            fmul(1, fsub(fsub(e[0], e[1]), fmul(rinv[2], fsub(e[2], e[3])))),
        ],
{
    lemma_exp2_values();
    assert(butterflies(e, rinv, 0) == e);
    let l0 = bf_layer(e, rinv, 0);
    assert(butterflies(e, rinv, 1) == l0);
    lemma_ops_eqm(e[0], e[1]);
    lemma_fmul_one_left(fsub(e[0], e[1]));
    assert(l0[0] == fadd(e[0], e[1]));
    assert(l0[1] == fsub(e[0], e[1]));
    assert(l0[2] == fadd(e[2], e[3]));
    assert(l0[3] == fmul(rinv[2], fsub(e[2], e[3])));
    let l1 = bf_layer(l0, rinv, 1);
    assert(butterflies(e, rinv, 2) == l1);
    assert(l1[0] == fadd(l0[0], l0[2]));
    assert(l1[1] == fadd(l0[1], l0[3]));
    assert(l1[2] == fmul(rinv[0], fsub(l0[0], l0[2])));
    assert(l1[3] == fmul(rinv[(3 - 2) / 2], fsub(l0[1], l0[3])));
    assert(l1 =~= seq![
        fadd(fadd(e[0], e[1]), fadd(e[2], e[3])),
        fadd(fsub(e[0], e[1]), fmul(rinv[2], fsub(e[2], e[3]))),
        fmul(1, fsub(fadd(e[0], e[1]), fadd(e[2], e[3]))),
        fmul(1, fsub(fsub(e[0], e[1]), fmul(rinv[2], fsub(e[2], e[3])))),
    ]);
}

/// `horner` of four values.
proof fn lemma_horner_four(x: Seq<int>, b: int)
    requires
        x.len() == 4,
        canon(x[3]),
    ensures
        horner(x, b) == fadd(fmul(fadd(fmul(fadd(fmul(x[3], b), x[2]), b), x[1]), b), x[0]),
{
    let x1 = x.drop_first();
    let x2 = x1.drop_first();
    let x3 = x2.drop_first();
    assert(x3.drop_first().len() == 0);
    assert(horner(x3.drop_first(), b) == 0);
    assert(x3.len() == 1 && x3[0] == x[3]);
    assert(x2[0] == x[2] && x1[0] == x[1]);
    assert(horner(x3, b) == fadd(fmul(0, b), x[3]));
    lemma_canon_mod(x[3]);
    assert(horner(x3, b) == x[3]);
    assert(horner(x2, b) == fadd(fmul(x[3], b), x[2]));
    assert(horner(x1, b) == fadd(fmul(horner(x2, b), b), x[1]));
}

/// **Folding by four agrees with `fold_quad`.** `fold` with `log_arity = 2` computes what
/// `fold_quad` computes.
pub proof fn law_fold_arity_four_is_fold_quad(v: Seq<int>, beta: int)
    requires
        forall|j: int| 0 <= j < v.len() ==> canon(#[trigger] v[j]),
        canon(beta),
    ensures
        fold_spec(v, beta, 2) == fold_quad_spec(v, beta),
{
    lemma_exp2_values();
    let h = v.len() / 4;
    let k = log2(h);
    let a = fold_spec(v, beta, 2);
    let b = fold_quad_spec(v, beta);
    assert(a.len() == b.len());
    assert forall|i: int| 0 <= i < h implies a[i] == b[i] by {
        let e = row_vals(v, i, 4);
        let rinv = roots_inv_spec(2);
        assert(rinv[0] == 1) by {
            assert(rev_bits(0, 0) == 0);
            assert(rev_bits(0, 1) == 0 * exp2(0) + rev_bits(0, 0));
            assert(rev_bits(0, 2) == 0 * exp2(1) + rev_bits(0, 1));
        }
        lemma_butterflies_four(e, rinv);
        let bf = butterflies(e, rinv, 2);
        let (c0, c1, c2, c3) = quad_coeffs(e, rinv);
        let gp = fpow(finv(two_adic_gen(k + 2)), rev_bits(i as nat, k));
        let bb = fmul(beta, gp);
        // the coefficients agree
        lemma_ops_eqm(e[0], e[1]);
        lemma_ops_eqm(e[2], e[3]);
        lemma_fmul_one_left(fsub(e[0], e[1]));
        assert(c1 == bf[1]);
        lemma_ops_eqm(fsub(e[0], e[1]), fmul(rinv[2], fsub(e[2], e[3])));
        lemma_fmul_one_left(fsub(fsub(e[0], e[1]), fmul(rinv[2], fsub(e[2], e[3]))));
        assert(c3 == bf[3]);
        lemma_sum_four(e[0], e[1], e[2], e[3]);
        assert(c0 == bf[0]);
        lemma_ops_eqm(fadd(e[0], e[1]), fadd(e[2], e[3]));
        lemma_fmul_one_left(fsub(fadd(e[0], e[1]), fadd(e[2], e[3])));
        lemma_ops_eqm(fsub(fadd(e[0], e[1]), e[2]), e[3]);
        lemma_fmul_one_left(fsub(fsub(fadd(e[0], e[1]), e[2]), e[3]));
        assert(c2 == bf[2]);
        lemma_ops_eqm(fsub(e[0], e[1]), fmul(rinv[2], fsub(e[2], e[3])));
        lemma_horner_four(bf, bb);
    }
    assert(a =~= b);
}

/// **`fold_row_quad` is `fold_row_large` with two folds.** For four evaluations and inverse
/// roots of unity whose first entry is one, both row folds give the same value.
pub proof fn law_fold_row_quad_is_fold_row_large(
    e: Seq<int>,
    rinv: Seq<int>,
    g_inv_power: int,
    beta: int,
    normalizing_factor: int,
)
    requires
        e.len() == 4,
        rinv.len() >= 3,
        rinv[0] == 1,
    ensures
        fold_row_quad_spec(e, rinv, g_inv_power, beta, normalizing_factor) == fold_row_large_spec(
            e,
            rinv,
            g_inv_power,
            beta,
            normalizing_factor,
            2,
        ),
{
    lemma_butterflies_four(e, rinv);
    let bf = butterflies(e, rinv, 2);
    let (c0, c1, c2, c3) = quad_coeffs(e, rinv);
    let bb = fmul(beta, g_inv_power);
    lemma_ops_eqm(e[0], e[1]);
    lemma_ops_eqm(e[2], e[3]);
    lemma_fmul_one_left(fsub(e[0], e[1]));
    assert(c1 == bf[1]);
    lemma_ops_eqm(fsub(e[0], e[1]), fmul(rinv[2], fsub(e[2], e[3])));
    lemma_fmul_one_left(fsub(fsub(e[0], e[1]), fmul(rinv[2], fsub(e[2], e[3]))));
    assert(c3 == bf[3]);
    lemma_sum_four(e[0], e[1], e[2], e[3]);
    assert(c0 == bf[0]);
    lemma_ops_eqm(fadd(e[0], e[1]), fadd(e[2], e[3]));
    lemma_fmul_one_left(fsub(fadd(e[0], e[1]), fadd(e[2], e[3])));
    lemma_ops_eqm(fsub(fadd(e[0], e[1]), e[2]), e[3]);
    lemma_fmul_one_left(fsub(fsub(fadd(e[0], e[1]), e[2]), e[3]));
    assert(c2 == bf[2]);
    lemma_horner_four(bf, bb);
}

/// `((e0 + e1) + e2) + e3 = (e0 + e1) + (e2 + e3)` and
/// `((e0 + e1) - e2) - e3 = (e0 + e1) - (e2 + e3)` in the field.
proof fn lemma_sum_four(e0: int, e1: int, e2: int, e3: int)
    ensures
        fadd(fadd(fadd(e0, e1), e2), e3) == fadd(fadd(e0, e1), fadd(e2, e3)),
        fsub(fsub(fadd(e0, e1), e2), e3) == fsub(fadd(e0, e1), fadd(e2, e3)),
{
    let s = fadd(e0, e1);
    lemma_ops_eqm(s, e2);
    lemma_ops_eqm(fadd(s, e2), e3);
    lemma_ops_eqm(e2, e3);
    lemma_ops_eqm(s, fadd(e2, e3));
    lemma_eqm_add(fadd(s, e2), e3, s + e2, e3);
    lemma_eqm_add(s, fadd(e2, e3), s, e2 + e3);
    lemma_eqm_canon_eq(fadd(fadd(s, e2), e3), fadd(s, fadd(e2, e3)));
    lemma_ops_eqm(fsub(s, e2), e3);
    lemma_ops_eqm(s, e2);
    lemma_eqm_sub(fsub(s, e2), e3, s - e2, e3);
    lemma_ops_eqm(s, fadd(e2, e3));
    lemma_eqm_sub(s, fadd(e2, e3), s, e2 + e3);
    lemma_eqm_canon_eq(fsub(fsub(s, e2), e3), fsub(s, fadd(e2, e3)));
}

/// **A row is what it takes to open the folded codeword.** Entry `i` of `fold` by `2^n`
/// depends on row `i` of the matrix alone: two codewords of the same length that agree on
/// that row fold to the same value there.
pub proof fn law_fold_entry_depends_on_its_row(u: Seq<int>, v: Seq<int>, beta: int, n: nat, i: int)
    requires
        u.len() == v.len(),
        0 <= i < u.len() / exp2(n),
        row_vals(u, i, exp2(n)) == row_vals(v, i, exp2(n)),
    ensures
        fold_spec(u, beta, n)[i] == fold_spec(v, beta, n)[i],
{
}

} // verus!
