//! Algebra of the folds: a fold of a constant codeword is that constant, the folds are linear
//! in the codeword (they add and scale), and the binary fold is affine in the challenge.
use crate::bits::{exp2, log2, rev_bits};
use crate::field::{
    canon, fadd, finv, fmul, fpow, fsub, lemma_eqm_add, lemma_eqm_canon_eq, lemma_eqm_mul,
    lemma_eqm_sub, lemma_mod_range, two_adic_gen,
};
use crate::fold_arity_law::{iterated_fold_even_odd, law_fold_is_iterated_fold_even_odd};
use crate::fold_even_odd::{fold_even_odd_spec, fold_row_binary_spec, fold_spec};
use crate::fold_laws::{feval, lemma_ops_eqm, peval};
use crate::low_degree::{block_sum, coeff, evaluates, fold_coeffs, ipow, law_fold_folds_polynomial};
use crate::prover::vadd;
use vstd::prelude::*;

verus! {

/// A block that starts at the only coefficient of a constant sums to it.
proof fn lemma_block_sum_constant(c: int, beta: int, len: nat)
    requires
        len >= 1,
    ensures
        block_sum(seq![c], beta, 0, len) == c,
    decreases len,
{
    if len == 1 {
        assert(block_sum(seq![c], beta, 0, 0) == 0);
        assert(ipow(beta, 0) == 1);
        assert(coeff(seq![c], 0) == c);
    } else {
        lemma_block_sum_constant(c, beta, (len - 1) as nat);
        assert(coeff(seq![c], len - 1) == 0);
        assert(ipow(beta, (len - 1) as nat) * 0 == 0) by (nonlinear_arith);
    }
}

/// **A fold of a constant codeword is that constant.** Folding `2^(a + n)` copies of `c` by
/// `2^n` gives `2^a` copies of `c`, whatever the challenge.
pub proof fn law_fold_of_constant(v: Seq<int>, c: int, beta: int, a: nat, n: nat)
    requires
        a + n <= 27,
        v.len() == exp2(a + n),
        canon(c),
        canon(beta),
        forall|j: int| 0 <= j < v.len() ==> #[trigger] v[j] == c,
    ensures
        fold_spec(v, beta, n).len() == exp2(a),
        forall|i: int| 0 <= i < exp2(a) ==> #[trigger] fold_spec(v, beta, n)[i] == c,
{
    let cs = seq![c];
    assert forall|j: int| 0 <= j < v.len() implies v[j] == #[trigger] feval(
        cs,
        crate::low_degree::lde_point(j as nat, log2(v.len())),
    ) by {
        let x = crate::low_degree::lde_point(j as nat, log2(v.len()));
        assert(cs.drop_first().len() == 0);
        assert(peval(cs.drop_first(), x) == 0);
        assert(peval(cs, x) == c + x * 0);
        assert(x * 0 == 0) by (nonlinear_arith);
        crate::field::lemma_canon_mod(c);
    }
    assert(evaluates(v, cs));
    law_fold_folds_polynomial(v, cs, beta, a, n);
    let f = fold_spec(v, beta, n);
    let fc = fold_coeffs(cs, beta, n);
    crate::bits::lemma_exp2_pos(n);
    lemma_block_sum_constant(c, beta, exp2(n));
    assert(fc[0] == block_sum(cs, beta, 0int * exp2(n), exp2(n)));
    assert(0 * exp2(n) == 0);
    assert forall|i: int| 0 <= i < exp2(a) implies #[trigger] f[i] == c by {
        let x = crate::low_degree::lde_point(i as nat, log2(f.len()));
        assert(f[i] == feval(fc, x));
        assert(fc.len() == 1);
        assert(fc.drop_first().len() == 0);
        assert(peval(fc.drop_first(), x) == 0);
        assert(peval(fc, x) == fc[0] + x * 0);
        assert(x * 0 == 0) by (nonlinear_arith);
        crate::field::lemma_canon_mod(c);
    }
}

/// The shift that `fold_even_odd` uses at row `i`, without the challenge:
/// `(1/2) g_inv^rev(i)`.
pub open spec fn half_twiddle(v: Seq<int>, i: int) -> int {
    let h = v.len() / 2;
    let k = log2(h);
    fmul(finv(2), fpow(finv(two_adic_gen(k + 1)), rev_bits(i as nat, k)))
}

/// `(h + x) r0 + (h - x) r1 = h (r0 + r1) + x (r0 - r1)`.
proof fn lemma_two_point_expand(h: int, x: int, r0: int, r1: int)
    ensures
        (h + x) * r0 + (h - x) * r1 == h * (r0 + r1) + x * (r0 - r1),
{
    assert((h + x) * r0 + (h - x) * r1 == h * (r0 + r1) + x * (r0 - r1)) by (nonlinear_arith);
}

/// **The binary fold is affine in the challenge.** Row `i` of `fold_even_odd` is
/// `(r0 + r1) / 2 + beta (r0 - r1) / (2 x)`: a value that does not depend on `beta`, plus
/// `beta` times another.
pub proof fn law_fold_even_odd_affine_in_beta(v: Seq<int>, beta: int, i: int)
    requires
        0 <= i < v.len() / 2,
        canon(v[2 * i]),
        canon(v[2 * i + 1]),
    ensures
        fold_even_odd_spec(v, beta)[i] == fadd(
            fmul(finv(2), fadd(v[2 * i], v[2 * i + 1])),
            fmul(beta, fmul(half_twiddle(v, i), fsub(v[2 * i], v[2 * i + 1]))),
        ),
{
    let h = v.len() / 2;
    let k = log2(h);
    let hf = finv(2);
    let gp = fpow(finv(two_adic_gen(k + 1)), rev_bits(i as nat, k));
    let r0 = v[2 * i];
    let r1 = v[2 * i + 1];
    let s = fmul(fmul(beta, hf), gp);
    let t = fmul(hf, gp);
    let lhs = fold_row_binary_spec(r0, r1, s, hf);
    let rhs = fadd(fmul(hf, fadd(r0, r1)), fmul(beta, fmul(t, fsub(r0, r1))));
    // both are congruent to hf (r0 + r1) + beta hf gp (r0 - r1)
    lemma_ops_eqm(beta, hf);
    lemma_ops_eqm(fmul(beta, hf), gp);
    lemma_eqm_mul(fmul(beta, hf), gp, beta * hf, gp);
    lemma_ops_eqm(hf, s);
    lemma_ops_eqm(fadd(hf, s), r0);
    lemma_eqm_add(hf, s, hf, (beta * hf) * gp);
    lemma_eqm_mul(fadd(hf, s), r0, hf + (beta * hf) * gp, r0);
    lemma_ops_eqm(fsub(hf, s), r1);
    lemma_eqm_sub(hf, s, hf, (beta * hf) * gp);
    lemma_eqm_mul(fsub(hf, s), r1, hf - (beta * hf) * gp, r1);
    lemma_ops_eqm(fmul(fadd(hf, s), r0), fmul(fsub(hf, s), r1));
    lemma_eqm_add(
        fmul(fadd(hf, s), r0),
        fmul(fsub(hf, s), r1),
        (hf + (beta * hf) * gp) * r0,
        (hf - (beta * hf) * gp) * r1,
    );
    lemma_ops_eqm(r0, r1);
    lemma_ops_eqm(hf, fadd(r0, r1));
    lemma_eqm_mul(hf, fadd(r0, r1), hf, r0 + r1);
    lemma_ops_eqm(hf, gp);
    lemma_ops_eqm(t, fsub(r0, r1));
    lemma_eqm_mul(t, fsub(r0, r1), hf * gp, r0 - r1);
    lemma_ops_eqm(beta, fmul(t, fsub(r0, r1)));
    lemma_eqm_mul(beta, fmul(t, fsub(r0, r1)), beta, (hf * gp) * (r0 - r1));
    lemma_ops_eqm(fmul(hf, fadd(r0, r1)), fmul(beta, fmul(t, fsub(r0, r1))));
    lemma_eqm_add(
        fmul(hf, fadd(r0, r1)),
        fmul(beta, fmul(t, fsub(r0, r1))),
        hf * (r0 + r1),
        beta * ((hf * gp) * (r0 - r1)),
    );
    lemma_two_point_expand(hf, (beta * hf) * gp, r0, r1);
    assert((beta * hf) * gp == beta * (hf * gp)) by {
        vstd::arithmetic::mul::lemma_mul_is_associative(beta, hf, gp);
    }
    assert(((beta * hf) * gp) * (r0 - r1) == beta * ((hf * gp) * (r0 - r1))) by {
        vstd::arithmetic::mul::lemma_mul_is_associative(beta, hf * gp, r0 - r1);
    }
    lemma_eqm_canon_eq(lhs, rhs);
}

/// **The binary fold is linear in the codeword.** The fold of the sum of two codewords is the
/// sum of their folds.
pub proof fn law_fold_even_odd_linear(u: Seq<int>, w: Seq<int>, beta: int)
    requires
        u.len() == w.len(),
        forall|j: int| 0 <= j < u.len() ==> canon(#[trigger] u[j]),
        forall|j: int| 0 <= j < w.len() ==> canon(#[trigger] w[j]),
    ensures
        fold_even_odd_spec(vadd(u, w), beta) == vadd(fold_even_odd_spec(u, beta), fold_even_odd_spec(w, beta)),
{
    let s = vadd(u, w);
    let a = fold_even_odd_spec(s, beta);
    let b = vadd(fold_even_odd_spec(u, beta), fold_even_odd_spec(w, beta));
    assert(a.len() == b.len());
    assert forall|i: int| 0 <= i < a.len() implies a[i] == b[i] by {
        let h = u.len() / 2;
        let k = log2(h);
        let hf = finv(2);
        let sh = fmul(fmul(beta, hf), fpow(finv(two_adic_gen(k + 1)), rev_bits(i as nat, k)));
        let p0 = fadd(hf, sh);
        let m0 = fsub(hf, sh);
        let (u0, u1, w0, w1) = (u[2 * i], u[2 * i + 1], w[2 * i], w[2 * i + 1]);
        assert(s[2 * i] == fadd(u0, w0) && s[2 * i + 1] == fadd(u1, w1));
        let fu = fold_row_binary_spec(u0, u1, sh, hf);
        let fw = fold_row_binary_spec(w0, w1, sh, hf);
        let fs = fold_row_binary_spec(fadd(u0, w0), fadd(u1, w1), sh, hf);
        lemma_ops_eqm(u0, w0);
        lemma_ops_eqm(u1, w1);
        lemma_ops_eqm(p0, fadd(u0, w0));
        lemma_ops_eqm(m0, fadd(u1, w1));
        lemma_eqm_mul(p0, fadd(u0, w0), p0, u0 + w0);
        lemma_eqm_mul(m0, fadd(u1, w1), m0, u1 + w1);
        lemma_ops_eqm(fmul(p0, fadd(u0, w0)), fmul(m0, fadd(u1, w1)));
        lemma_eqm_add(fmul(p0, fadd(u0, w0)), fmul(m0, fadd(u1, w1)), p0 * (u0 + w0), m0 * (u1 + w1));
        lemma_ops_eqm(p0, u0);
        lemma_ops_eqm(m0, u1);
        lemma_ops_eqm(p0, w0);
        lemma_ops_eqm(m0, w1);
        lemma_ops_eqm(fmul(p0, u0), fmul(m0, u1));
        lemma_ops_eqm(fmul(p0, w0), fmul(m0, w1));
        lemma_eqm_add(fmul(p0, u0), fmul(m0, u1), p0 * u0, m0 * u1);
        lemma_eqm_add(fmul(p0, w0), fmul(m0, w1), p0 * w0, m0 * w1);
        lemma_ops_eqm(fu, fw);
        lemma_eqm_add(fu, fw, p0 * u0 + m0 * u1, p0 * w0 + m0 * w1);
        assert(p0 * (u0 + w0) + m0 * (u1 + w1) == (p0 * u0 + m0 * u1) + (p0 * w0 + m0 * w1))
            by (nonlinear_arith);
        lemma_eqm_canon_eq(fs, fadd(fu, fw));
    }
    assert(a =~= b);
}

/// The binary folds of canonical values are canonical.
proof fn lemma_fold_even_odd_canon(v: Seq<int>, beta: int)
    ensures
        forall|j: int| 0 <= j < fold_even_odd_spec(v, beta).len() ==> canon(#[trigger] fold_even_odd_spec(v, beta)[j]),
{
    assert forall|j: int| 0 <= j < fold_even_odd_spec(v, beta).len() implies canon(#[trigger] fold_even_odd_spec(v, beta)[j]) by {
        let h = v.len() / 2;
        let k = log2(h);
        let hf = finv(2);
        let sh = fmul(fmul(beta, hf), fpow(finv(two_adic_gen(k + 1)), rev_bits(j as nat, k)));
        lemma_ops_eqm(fmul(fadd(hf, sh), v[2 * j]), fmul(fsub(hf, sh), v[2 * j + 1]));
    }
}

/// Repeated binary folds are linear in the codeword.
proof fn lemma_iterated_fold_linear(u: Seq<int>, w: Seq<int>, beta: int, n: nat)
    requires
        u.len() == w.len(),
        forall|j: int| 0 <= j < u.len() ==> canon(#[trigger] u[j]),
        forall|j: int| 0 <= j < w.len() ==> canon(#[trigger] w[j]),
    ensures
        iterated_fold_even_odd(vadd(u, w), beta, n) == vadd(
            iterated_fold_even_odd(u, beta, n),
            iterated_fold_even_odd(w, beta, n),
        ),
    decreases n,
{
    if n > 0 {
        law_fold_even_odd_linear(u, w, beta);
        lemma_fold_even_odd_canon(u, beta);
        lemma_fold_even_odd_canon(w, beta);
        lemma_iterated_fold_linear(
            fold_even_odd_spec(u, beta),
            fold_even_odd_spec(w, beta),
            fmul(beta, beta),
            (n - 1) as nat,
        );
    }
}

/// **Folding is linear in the codeword.** For two codewords of `2^(a + n)` canonical values,
/// the fold by `2^n` of their sum is the sum of their folds.
pub proof fn law_fold_linear(u: Seq<int>, w: Seq<int>, beta: int, a: nat, n: nat)
    requires
        a + n <= 27,
        u.len() == exp2(a + n),
        w.len() == exp2(a + n),
        forall|j: int| 0 <= j < u.len() ==> canon(#[trigger] u[j]),
        forall|j: int| 0 <= j < w.len() ==> canon(#[trigger] w[j]),
        canon(beta),
    ensures
        fold_spec(vadd(u, w), beta, n) == vadd(fold_spec(u, beta, n), fold_spec(w, beta, n)),
{
    let s = vadd(u, w);
    assert forall|j: int| 0 <= j < s.len() implies canon(#[trigger] s[j]) by {
        lemma_mod_range(u[j] + w[j]);
    }
    law_fold_is_iterated_fold_even_odd(u, beta, a, n);
    law_fold_is_iterated_fold_even_odd(w, beta, a, n);
    law_fold_is_iterated_fold_even_odd(s, beta, a, n);
    lemma_iterated_fold_linear(u, w, beta, n);
}


/// The codeword `v` with every entry multiplied by `c`.
pub open spec fn vscale(c: int, v: Seq<int>) -> Seq<int> {
    Seq::new(v.len(), |i: int| fmul(c, v[i]))
}

/// `p0 (c x) + m0 (c y) = c (p0 x + m0 y)`.
proof fn lemma_scale_expand(p0: int, m0: int, c: int, x: int, y: int)
    ensures
        p0 * (c * x) + m0 * (c * y) == c * (p0 * x + m0 * y),
{
    assert(p0 * (c * x) + m0 * (c * y) == c * (p0 * x + m0 * y)) by (nonlinear_arith);
}

/// **The binary fold commutes with scaling.** The fold of `c` times a codeword is `c` times
/// its fold.
pub proof fn law_fold_even_odd_scales(v: Seq<int>, c: int, beta: int)
    ensures
        fold_even_odd_spec(vscale(c, v), beta) == vscale(c, fold_even_odd_spec(v, beta)),
{
    let sv = vscale(c, v);
    let a = fold_even_odd_spec(sv, beta);
    let b = vscale(c, fold_even_odd_spec(v, beta));
    assert(a.len() == b.len());
    assert forall|i: int| 0 <= i < a.len() implies a[i] == b[i] by {
        let h = v.len() / 2;
        let k = log2(h);
        let hf = finv(2);
        let sh = fmul(fmul(beta, hf), fpow(finv(two_adic_gen(k + 1)), rev_bits(i as nat, k)));
        let p0 = fadd(hf, sh);
        let m0 = fsub(hf, sh);
        let (x, y) = (v[2 * i], v[2 * i + 1]);
        assert(sv[2 * i] == fmul(c, x) && sv[2 * i + 1] == fmul(c, y));
        let fv = fold_row_binary_spec(x, y, sh, hf);
        let fs = fold_row_binary_spec(fmul(c, x), fmul(c, y), sh, hf);
        lemma_ops_eqm(c, x);
        lemma_ops_eqm(c, y);
        lemma_ops_eqm(p0, fmul(c, x));
        lemma_ops_eqm(m0, fmul(c, y));
        lemma_eqm_mul(p0, fmul(c, x), p0, c * x);
        lemma_eqm_mul(m0, fmul(c, y), m0, c * y);
        lemma_ops_eqm(fmul(p0, fmul(c, x)), fmul(m0, fmul(c, y)));
        lemma_eqm_add(fmul(p0, fmul(c, x)), fmul(m0, fmul(c, y)), p0 * (c * x), m0 * (c * y));
        lemma_ops_eqm(p0, x);
        lemma_ops_eqm(m0, y);
        lemma_ops_eqm(fmul(p0, x), fmul(m0, y));
        lemma_eqm_add(fmul(p0, x), fmul(m0, y), p0 * x, m0 * y);
        lemma_ops_eqm(c, fv);
        lemma_eqm_mul(c, fv, c, p0 * x + m0 * y);
        lemma_scale_expand(p0, m0, c, x, y);
        lemma_eqm_canon_eq(fs, fmul(c, fv));
    }
    assert(a =~= b);
}

/// Repeated binary folds commute with scaling.
proof fn lemma_iterated_fold_scales(v: Seq<int>, c: int, beta: int, n: nat)
    ensures
        iterated_fold_even_odd(vscale(c, v), beta, n) == vscale(c, iterated_fold_even_odd(v, beta, n)),
    decreases n,
{
    if n == 0 {
    } else {
        law_fold_even_odd_scales(v, c, beta);
        lemma_iterated_fold_scales(fold_even_odd_spec(v, beta), c, fmul(beta, beta), (n - 1) as nat);
    }
}

/// **Folding commutes with scaling.** For a codeword of `2^(a + n)` canonical values, the
/// fold by `2^n` of `c` times it is `c` times its fold.
pub proof fn law_fold_scales(v: Seq<int>, c: int, beta: int, a: nat, n: nat)
    requires
        a + n <= 27,
        v.len() == exp2(a + n),
        forall|j: int| 0 <= j < v.len() ==> canon(#[trigger] v[j]),
        canon(beta),
    ensures
        fold_spec(vscale(c, v), beta, n) == vscale(c, fold_spec(v, beta, n)),
{
    let sv = vscale(c, v);
    assert forall|j: int| 0 <= j < sv.len() implies canon(#[trigger] sv[j]) by {
        lemma_mod_range(c * v[j]);
    }
    law_fold_is_iterated_fold_even_odd(v, beta, a, n);
    law_fold_is_iterated_fold_even_odd(sv, beta, a, n);
    lemma_iterated_fold_scales(v, c, beta, n);
}

} // verus!
