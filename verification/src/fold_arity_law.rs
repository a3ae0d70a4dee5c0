//! Folding by `2^n` at once equals folding by two `n` times, squaring `beta` each time.
use crate::bits::{
    exp2, lemma_exp2_add, lemma_exp2_pos, lemma_exp2_values, lemma_log2_exp2, lemma_rev_bits_bound,
    lemma_rev_bits_even_odd, lemma_rev_bits_split, log2, rev_bits,
};
use crate::field::{
    canon, eqm, fadd, finv, fmul, fpow, fsub, lemma_canon_mod, lemma_eqm_add, lemma_eqm_canon_eq,
    lemma_eqm_mul, lemma_eqm_sub, lemma_finv_exp2, lemma_fmul_assoc, lemma_fmul_comm,
    lemma_fmul_eqm, lemma_fpow_add, lemma_fpow_mul, lemma_fpow_mul_base, lemma_fpow_range,
    lemma_fpow_two, lemma_mod_range, lemma_two_adic_gen_inv_pow2, two_adic_gen,
};
use crate::fold_even_odd::{
    bf_layer, butterflies, fold_even_odd_spec, fold_row_binary_spec, fold_row_large_spec,
    fold_spec, horner, roots_inv_spec, row_vals,
};
use crate::fold_laws::lemma_ops_eqm;
use vstd::arithmetic::div_mod::{lemma_fundamental_div_mod, lemma_fundamental_div_mod_converse};
use vstd::prelude::*;

verus! {

/// The entries at even positions.
pub open spec fn evens(x: Seq<int>) -> Seq<int> {
    Seq::new(x.len() / 2, |u: int| x[2 * u])
}

/// The entries at odd positions.
pub open spec fn odds(x: Seq<int>) -> Seq<int> {
    Seq::new(x.len() / 2, |u: int| x[2 * u + 1])
}

// ---------------------------------------------------------------------------------------------
// Index arithmetic
proof fn lemma_mod_double(u: int, hh: int)
    requires
        u >= 0,
        hh >= 1,
    ensures
        (2 * u) % (4 * hh) == 2 * (u % (2 * hh)),
        (2 * u + 1) % (4 * hh) == 2 * (u % (2 * hh)) + 1,
{
    lemma_fundamental_div_mod(u, 2 * hh);
    let q = u / (2 * hh);
    let r = u % (2 * hh);
    assert(2 * u == q * (4 * hh) + 2 * r) by (nonlinear_arith)
        requires
            u == (2 * hh) * q + r,
    ;
    lemma_fundamental_div_mod_converse(2 * u, 4 * hh, q, 2 * r);
    lemma_fundamental_div_mod_converse(2 * u + 1, 4 * hh, q, 2 * r + 1);
}

proof fn lemma_div_double(a: int, b: int)
    requires
        a >= 0,
        b >= 1,
    ensures
        (2 * a) / (2 * b) == a / b,
        (2 * a + 1) / (2 * b) == a / b,
{
    lemma_fundamental_div_mod(a, b);
    let q = a / b;
    let r = a % b;
    assert(2 * a == q * (2 * b) + 2 * r) by (nonlinear_arith)
        requires
            a == b * q + r,
    ;
    lemma_fundamental_div_mod_converse(2 * a, 2 * b, q, 2 * r);
    lemma_fundamental_div_mod_converse(2 * a + 1, 2 * b, q, 2 * r + 1);
}

/// In a sequence of a length that `2 * half` divides, the partner `t + half` of a position in
/// the first half of its block lies inside the sequence.
proof fn lemma_partner_in_range(t: int, half: int, n: int)
    requires
        half >= 1,
        0 <= t < n,
        n % (2 * half) == 0,
        t % (2 * half) < half,
    ensures
        t + half < n,
{
    lemma_fundamental_div_mod(t, 2 * half);
    let q = t / (2 * half);
    let b = t - t % (2 * half);
    assert(b == (2 * half) * q);
    assert(b % (2 * half) == 0) by {
        vstd::arithmetic::div_mod::lemma_mod_multiples_basic(q, 2 * half);
        vstd::arithmetic::mul::lemma_mul_is_commutative(q, 2 * half);
    }
    vstd::arithmetic::div_mod::lemma_mod_bound(t, 2 * half);
    crate::bits::lemma_block_fits(b, 2 * half, n);
}

proof fn lemma_scaled_difference(w: int, alpha: int, gamma: int, x0: int, x1: int, y0: int, y1: int)
    ensures
        w * ((alpha * x0 + gamma * y0) - (alpha * x1 + gamma * y1)) == alpha * (w * (x0 - x1))
            + gamma * (w * (y0 - y1)),
{
    assert(w * ((alpha * x0 + gamma * y0) - (alpha * x1 + gamma * y1)) == w * (alpha * (x0 - x1))
        + w * (gamma * (y0 - y1))) by (nonlinear_arith);
    assert(w * (alpha * (x0 - x1)) == alpha * (w * (x0 - x1))) by (nonlinear_arith);
    assert(w * (gamma * (y0 - y1)) == gamma * (w * (y0 - y1))) by (nonlinear_arith);
}

// ---------------------------------------------------------------------------------------------
// The butterfly network splits into two networks of half the size
pub proof fn lemma_butterflies_len(x: Seq<int>, r: Seq<int>, n: nat)
    ensures
        butterflies(x, r, n).len() == x.len(),
    decreases n,
{
    if n > 0 {
        lemma_butterflies_len(x, r, (n - 1) as nat);
    }
}

/// A layer `l >= 1` acts on the entries at even positions and on those at odd positions
/// separately, as layer `l - 1` of the network of half the size.
proof fn lemma_layer_evens_odds(x: Seq<int>, r: Seq<int>, r2: Seq<int>, l: nat, m: nat)
    requires
        1 <= l < m,
        x.len() == exp2(m),
        forall|a: int| 0 <= a < exp2((m - 1) as nat) ==> r2[a] == #[trigger] r[a],
    ensures
        evens(bf_layer(x, r, l)) == bf_layer(evens(x), r2, (l - 1) as nat),
        odds(bf_layer(x, r, l)) == bf_layer(odds(x), r2, (l - 1) as nat),
{
    let l1 = (l - 1) as nat;
    let hh = exp2(l1) as int;
    let half = exp2(l) as int;
    lemma_exp2_pos(l1);
    assert(half == 2 * hh);
    lemma_exp2_add(l, (m - l) as nat);
    assert((l + (m - l) as nat) as nat == m);
    lemma_exp2_pos((m - l) as nat);
    let y = bf_layer(x, r, l);
    let ev = evens(x);
    let od = odds(x);
    let n2 = exp2((m - 1) as nat) as int;
    assert(x.len() == 2 * n2);
    assert(ev.len() == n2 && od.len() == n2);
    assert forall|u: int|
        #![trigger evens(y)[u]]
        #![trigger odds(y)[u]]
        0 <= u < n2 implies evens(y)[u] == bf_layer(ev, r2, l1)[u] && odds(y)[u] == bf_layer(
        od,
        r2,
        l1,
    )[u] by {
        lemma_mod_double(u, hh);
        assert(2 * hh * 2 == 4 * hh);
        if u % (2 * hh) < hh {
            // the partner lies inside the same block
            assert((u % (2 * hh)) + hh < 2 * hh);
            assert(u + hh < n2) by {
                lemma_exp2_add(l, (m - 1 - l) as nat);
                assert((l + (m - 1 - l) as nat) as nat == (m - 1) as nat);
                vstd::arithmetic::div_mod::lemma_mod_multiples_basic(
                    exp2((m - 1 - l) as nat) as int,
                    2 * hh,
                );
                vstd::arithmetic::mul::lemma_mul_is_commutative(
                    exp2((m - 1 - l) as nat) as int,
                    2 * hh,
                );
                lemma_partner_in_range(u, hh, n2);
            }
            assert(2 * u + half == 2 * (u + hh));
            assert(2 * u + 1 + half == 2 * (u + hh) + 1);
        } else {
            assert(u >= hh) by {
                vstd::arithmetic::div_mod::lemma_mod_decreases(u as nat, (2 * hh) as nat);
            }
            lemma_div_double(u - hh, hh);
            assert(2 * u - half == 2 * (u - hh));
            assert(2 * u + 1 - half == 2 * (u - hh) + 1);
            assert((u - hh) / hh <= u - hh) by {
                vstd::arithmetic::div_mod::lemma_div_is_ordered_by_denominator(u - hh, 1, hh);
            }
        }
    }
    assert(evens(y) =~= bf_layer(ev, r2, l1));
    assert(odds(y) =~= bf_layer(od, r2, l1));
}

/// The network of `j + 1` layers on `x`, read at even (odd) positions, is the network of `j`
/// layers of half the size on the even (odd) entries of the first layer.
proof fn lemma_butterflies_split(x: Seq<int>, r: Seq<int>, r2: Seq<int>, j: nat, m: nat)
    requires
        j < m,
        x.len() == exp2(m),
        forall|a: int| 0 <= a < exp2((m - 1) as nat) ==> r2[a] == #[trigger] r[a],
    ensures
        evens(butterflies(x, r, j + 1)) == butterflies(evens(bf_layer(x, r, 0)), r2, j),
        odds(butterflies(x, r, j + 1)) == butterflies(odds(bf_layer(x, r, 0)), r2, j),
    decreases j,
{
    assert(butterflies(x, r, 0) == x);
    if j > 0 {
        let j1 = (j - 1) as nat;
        lemma_butterflies_split(x, r, r2, j1, m);
        lemma_butterflies_len(x, r, j);
        assert((j1 + 1) as nat == j);
        lemma_layer_evens_odds(butterflies(x, r, j), r, r2, j, m);
    }
}

// ---------------------------------------------------------------------------------------------
// Horner evaluation
/// `horner(x, b) = x[0] + b * horner(x[1..], b)` up to congruence.
proof fn lemma_horner_step(x: Seq<int>, b: int)
    requires
        x.len() > 0,
    ensures
        eqm(horner(x, b), x[0] + b * horner(x.drop_first(), b)),
{
    let t = horner(x.drop_first(), b);
    lemma_ops_eqm(t, b);
    lemma_ops_eqm(fmul(t, b), x[0]);
    lemma_eqm_add(fmul(t, b), x[0], t * b, x[0]);
    vstd::arithmetic::mul::lemma_mul_is_commutative(t, b);
}

/// `horner` depends only on the class of the point.
proof fn lemma_horner_eqm_point(x: Seq<int>, b: int, c: int)
    requires
        eqm(b, c),
    ensures
        horner(x, b) == horner(x, c),
    decreases x.len(),
{
    if x.len() > 0 {
        lemma_horner_eqm_point(x.drop_first(), b, c);
        lemma_fmul_eqm(horner(x.drop_first(), b), b, horner(x.drop_first(), c), c);
    }
}

proof fn lemma_regroup(alpha: int, gamma: int, x0: int, y0: int, b: int, hx: int, hy: int)
    ensures
        (alpha * x0 + gamma * y0) + b * (alpha * hx + gamma * hy) == alpha * (x0 + b * hx) + gamma
            * (y0 + b * hy),
{
    assert(b * (alpha * hx + gamma * hy) == alpha * (b * hx) + gamma * (b * hy))
        by (nonlinear_arith);
    assert(alpha * (x0 + b * hx) == alpha * x0 + alpha * (b * hx)) by (nonlinear_arith);
    assert(gamma * (y0 + b * hy) == gamma * y0 + gamma * (b * hy)) by (nonlinear_arith);
}

/// `horner` is linear in the coefficients, up to congruence.
proof fn lemma_horner_linear(x: Seq<int>, y: Seq<int>, z: Seq<int>, alpha: int, gamma: int, b: int)
    requires
        x.len() == y.len(),
        z.len() == x.len(),
        forall|t: int| 0 <= t < z.len() ==> eqm(#[trigger] z[t], alpha * x[t] + gamma * y[t]),
    ensures
        eqm(horner(z, b), alpha * horner(x, b) + gamma * horner(y, b)),
    decreases z.len(),
{
    if z.len() > 0 {
        let x1 = x.drop_first();
        let y1 = y.drop_first();
        let z1 = z.drop_first();
        assert forall|t: int| 0 <= t < z1.len() implies eqm(
            #[trigger] z1[t],
            alpha * x1[t] + gamma * y1[t],
        ) by {
            assert(z1[t] == z[t + 1]);
        }
        lemma_horner_linear(x1, y1, z1, alpha, gamma, b);
        lemma_horner_step(x, b);
        lemma_horner_step(y, b);
        lemma_horner_step(z, b);
        let hx = horner(x1, b);
        let hy = horner(y1, b);
        let hz = horner(z1, b);
        lemma_eqm_mul(b, hz, b, alpha * hx + gamma * hy);
        lemma_eqm_add(z[0], b * hz, alpha * x[0] + gamma * y[0], b * (alpha * hx + gamma * hy));
        lemma_regroup(alpha, gamma, x[0], y[0], b, hx, hy);
        lemma_eqm_mul(alpha, horner(x, b), alpha, x[0] + b * hx);
        lemma_eqm_mul(gamma, horner(y, b), gamma, y[0] + b * hy);
        lemma_eqm_add(
            alpha * horner(x, b),
            gamma * horner(y, b),
            alpha * (x[0] + b * hx),
            gamma * (y[0] + b * hy),
        );
    } else {
        assert(alpha * 0 + gamma * 0 == 0) by (nonlinear_arith);
    }
}

/// `horner(x, b) = horner(evens(x), b^2) + b horner(odds(x), b^2)` for `x` of even length.
proof fn lemma_horner_split(x: Seq<int>, b: int)
    requires
        x.len() % 2 == 0,
    ensures
        eqm(horner(x, b), horner(evens(x), b * b) + b * horner(odds(x), b * b)),
    decreases x.len(),
{
    let bb = b * b;
    if x.len() == 0 {
        assert(evens(x).len() == 0 && odds(x).len() == 0);
        assert(b * 0 == 0);
    } else {
        let x1 = x.drop_first();
        let r = x1.drop_first();
        assert(evens(x).drop_first() =~= evens(r));
        assert(odds(x).drop_first() =~= odds(r));
        assert(evens(x)[0] == x[0] && odds(x)[0] == x[1] && x1[0] == x[1]);
        lemma_horner_split(r, b);
        let he = horner(evens(r), bb);
        let ho = horner(odds(r), bb);
        let hr = horner(r, b);
        lemma_horner_step(x, b);
        lemma_horner_step(x1, b);
        lemma_horner_step(evens(x), bb);
        lemma_horner_step(odds(x), bb);
        // horner(x) = x0 + b (x1 + b hr) and hr = he + b ho
        lemma_eqm_mul(b, horner(x1, b), b, x[1] + b * hr);
        lemma_eqm_add(x[0], b * horner(x1, b), x[0], b * (x[1] + b * hr));
        lemma_eqm_mul(b, hr, b, he + b * ho);
        lemma_eqm_add(x[1], b * hr, x[1], b * (he + b * ho));
        lemma_eqm_mul(b, x[1] + b * hr, b, x[1] + b * (he + b * ho));
        lemma_eqm_add(x[0], b * (x[1] + b * hr), x[0], b * (x[1] + b * (he + b * ho)));
        assert(x[0] + b * (x[1] + b * (he + b * ho)) == (x[0] + bb * he) + b * (x[1] + bb * ho))
            by (nonlinear_arith)
            requires
                bb == b * b,
        ;
        // the right-hand side
        lemma_eqm_mul(b, horner(odds(x), bb), b, x[1] + bb * ho);
        lemma_eqm_add(
            horner(evens(x), bb),
            b * horner(odds(x), bb),
            x[0] + bb * he,
            b * (x[1] + bb * ho),
        );
    }
}

// ---------------------------------------------------------------------------------------------
// The butterfly network is linear
/// A layer is linear, up to congruence.
proof fn lemma_layer_linear(
    x: Seq<int>,
    y: Seq<int>,
    z: Seq<int>,
    alpha: int,
    gamma: int,
    r: Seq<int>,
    l: nat,
    m: nat,
)
    requires
        l < m,
        x.len() == exp2(m),
        y.len() == x.len(),
        z.len() == x.len(),
        forall|t: int| 0 <= t < z.len() ==> eqm(#[trigger] z[t], alpha * x[t] + gamma * y[t]),
    ensures
        forall|t: int|
            0 <= t < z.len() ==> eqm(
                #[trigger] bf_layer(z, r, l)[t],
                alpha * bf_layer(x, r, l)[t] + gamma * bf_layer(y, r, l)[t],
            ),
{
    let half = exp2(l) as int;
    lemma_exp2_pos(l);
    lemma_exp2_pos((m - l - 1) as nat);
    crate::bits::lemma_exp2_divides((l + 1) as nat, m);
    assert forall|t: int| 0 <= t < z.len() implies eqm(
        #[trigger] bf_layer(z, r, l)[t],
        alpha * bf_layer(x, r, l)[t] + gamma * bf_layer(y, r, l)[t],
    ) by {
        assert(exp2((l + 1) as nat) == 2 * half);
        if t % (2 * half) < half {
            lemma_partner_in_range(t, half, z.len() as int);
            let p0 = z[t];
            let p1 = z[t + half];
            lemma_ops_eqm(p0, p1);
            lemma_ops_eqm(x[t], x[t + half]);
            lemma_ops_eqm(y[t], y[t + half]);
            lemma_eqm_add(p0, p1, alpha * x[t] + gamma * y[t], alpha * x[t + half] + gamma * y[t
                + half]);
            lemma_eqm_mul(alpha, fadd(x[t], x[t + half]), alpha, x[t] + x[t + half]);
            lemma_eqm_mul(gamma, fadd(y[t], y[t + half]), gamma, y[t] + y[t + half]);
            lemma_eqm_add(
                alpha * fadd(x[t], x[t + half]),
                gamma * fadd(y[t], y[t + half]),
                alpha * (x[t] + x[t + half]),
                gamma * (y[t] + y[t + half]),
            );
            assert((alpha * x[t] + gamma * y[t]) + (alpha * x[t + half] + gamma * y[t + half])
                == alpha * (x[t] + x[t + half]) + gamma * (y[t] + y[t + half]))
                by (nonlinear_arith);
        } else {
            assert(t >= half) by {
                vstd::arithmetic::div_mod::lemma_mod_decreases(t as nat, (2 * half) as nat);
            }
            let w = r[(t - half) / half];
            lemma_ops_eqm(z[t - half], z[t]);
            lemma_ops_eqm(x[t - half], x[t]);
            lemma_ops_eqm(y[t - half], y[t]);
            lemma_ops_eqm(w, fsub(z[t - half], z[t]));
            lemma_ops_eqm(w, fsub(x[t - half], x[t]));
            lemma_ops_eqm(w, fsub(y[t - half], y[t]));
            lemma_eqm_sub(z[t - half], z[t], alpha * x[t - half] + gamma * y[t - half], alpha
                * x[t] + gamma * y[t]);
            lemma_eqm_mul(
                w,
                fsub(z[t - half], z[t]),
                w,
                (alpha * x[t - half] + gamma * y[t - half]) - (alpha * x[t] + gamma * y[t]),
            );
            lemma_eqm_mul(w, fsub(x[t - half], x[t]), w, x[t - half] - x[t]);
            lemma_eqm_mul(w, fsub(y[t - half], y[t]), w, y[t - half] - y[t]);
            lemma_eqm_mul(alpha, fmul(w, fsub(x[t - half], x[t])), alpha, w * (x[t - half] - x[t]));
            lemma_eqm_mul(gamma, fmul(w, fsub(y[t - half], y[t])), gamma, w * (y[t - half] - y[t]));
            lemma_eqm_add(
                alpha * fmul(w, fsub(x[t - half], x[t])),
                gamma * fmul(w, fsub(y[t - half], y[t])),
                alpha * (w * (x[t - half] - x[t])),
                gamma * (w * (y[t - half] - y[t])),
            );
            lemma_scaled_difference(w, alpha, gamma, x[t - half], x[t], y[t - half], y[t]);
        }
    }
}

/// The network of `n` layers is linear, up to congruence.
proof fn lemma_butterflies_linear(
    x: Seq<int>,
    y: Seq<int>,
    z: Seq<int>,
    alpha: int,
    gamma: int,
    r: Seq<int>,
    n: nat,
    m: nat,
)
    requires
        n <= m,
        x.len() == exp2(m),
        y.len() == x.len(),
        z.len() == x.len(),
        forall|t: int| 0 <= t < z.len() ==> eqm(#[trigger] z[t], alpha * x[t] + gamma * y[t]),
    ensures
        forall|t: int|
            0 <= t < z.len() ==> eqm(
                #[trigger] butterflies(z, r, n)[t],
                alpha * butterflies(x, r, n)[t] + gamma * butterflies(y, r, n)[t],
            ),
    decreases n,
{
    if n > 0 {
        let n1 = (n - 1) as nat;
        lemma_butterflies_linear(x, y, z, alpha, gamma, r, n1, m);
        lemma_butterflies_len(x, r, n1);
        lemma_butterflies_len(y, r, n1);
        lemma_butterflies_len(z, r, n1);
        lemma_layer_linear(
            butterflies(x, r, n1),
            butterflies(y, r, n1),
            butterflies(z, r, n1),
            alpha,
            gamma,
            r,
            n1,
            m,
        );
    } else {
        assert(butterflies(z, r, 0) == z);
        assert(butterflies(x, r, 0) == x);
        assert(butterflies(y, r, 0) == y);
    }
}


// ---------------------------------------------------------------------------------------------
// One binary fold in front of a fold of arity 2^(n-1) is a fold of arity 2^n
/// `(h + s) r0 + (h - s) r1 = h (r0 + r1) + s (r0 - r1)`.
proof fn lemma_binary_sum_diff(r0: int, r1: int, s: int, h: int)
    ensures
        eqm(fold_row_binary_spec(r0, r1, s, h), h * (r0 + r1) + s * (r0 - r1)),
{
    lemma_ops_eqm(h, s);
    lemma_ops_eqm(fadd(h, s), r0);
    lemma_ops_eqm(fsub(h, s), r1);
    lemma_ops_eqm(fmul(fadd(h, s), r0), fmul(fsub(h, s), r1));
    lemma_eqm_mul(fadd(h, s), r0, h + s, r0);
    lemma_eqm_mul(fsub(h, s), r1, h - s, r1);
    lemma_eqm_add(fmul(fadd(h, s), r0), fmul(fsub(h, s), r1), (h + s) * r0, (h - s) * r1);
    assert((h + s) * r0 + (h - s) * r1 == h * (r0 + r1) + s * (r0 - r1)) by (nonlinear_arith);
}

/// `(b b)(w w) = (b w)(b w)` in the field.
proof fn lemma_fmul_square_product(b: int, w: int)
    ensures
        fmul(fmul(b, b), fmul(w, w)) == fmul(fmul(b, w), fmul(b, w)),
{
    lemma_fmul_assoc(fmul(b, b), w, w);
    lemma_fmul_assoc(b, b, w);
    lemma_fmul_comm(b, w);
    lemma_fmul_assoc(b, w, b);
    lemma_fmul_assoc(fmul(b, w), b, w);
    assert(fmul(fmul(b, b), fmul(w, w)) == fmul(fmul(fmul(b, b), w), w));
    assert(fmul(fmul(b, b), w) == fmul(b, fmul(b, w)));
    assert(fmul(b, fmul(b, w)) == fmul(b, fmul(w, b)));
    assert(fmul(b, fmul(w, b)) == fmul(fmul(b, w), b));
}

/// The inverse roots of unity of order `2^n` at the first `2^(n-1)` positions are those of
/// order `2^(n-1)`; at position `2t` they are `z^-rev(t)` over `n - 1` bits.
proof fn lemma_roots_inv_halves(n: nat)
    requires
        1 <= n <= 27,
    ensures
        forall|a: int|
            0 <= a < exp2((n - 1) as nat) ==> roots_inv_spec((n - 1) as nat)[a]
                == #[trigger] roots_inv_spec(n)[a],
        forall|t: int|
            0 <= t < exp2((n - 1) as nat) ==> #[trigger] roots_inv_spec(n)[2 * t] == fpow(
                finv(two_adic_gen(n)),
                rev_bits(t as nat, (n - 1) as nat),
            ),
{
    let n1 = (n - 1) as nat;
    let z = finv(two_adic_gen(n));
    lemma_two_adic_gen_inv_pow2(n, 1);
    lemma_two_adic_gen_inv_pow2(n, 0);
    lemma_exp2_values();
    lemma_fpow_two(z);
    assert((n - 1) as nat == n1);
    assert(fpow(z, 2) == finv(two_adic_gen(n1)));
    assert(exp2(n) == 2 * exp2(n1));
    assert forall|a: int| 0 <= a < exp2(n1) implies roots_inv_spec(n1)[a]
        == #[trigger] roots_inv_spec(n)[a] by {
        lemma_rev_bits_split(0, a as nat, n1, 1);
        assert(0 * exp2(n1) + a == a);
        assert((n1 + 1) as nat == n);
        assert(rev_bits(0, 0) == 0);
        assert(rev_bits(0, 1) == 0 * exp2(0) + rev_bits(0, 0));
        let r = rev_bits(a as nat, n1);
        assert(rev_bits(a as nat, n) == r * 2);
        lemma_fpow_mul(z, 2, r);
        assert(2 * r == r * 2);
    }
    assert forall|t: int| 0 <= t < exp2(n1) implies #[trigger] roots_inv_spec(n)[2 * t] == fpow(
        z,
        rev_bits(t as nat, n1),
    ) by {
        lemma_rev_bits_even_odd(t as nat, n1);
        assert((n1 + 1) as nat == n);
    }
}

/// The power `g_inv^rev(j)` that `fold_even_odd` uses at position `j = i 2^(n-1) + t`,
/// split into the part of the row and the part of the position in the row.
proof fn lemma_twiddle_split(i: nat, t: nat, a: nat, n: nat)
    requires
        1 <= n,
        a + n <= 27,
        t < exp2((n - 1) as nat),
    ensures
        fpow(finv(two_adic_gen(a + n)), rev_bits(i * exp2((n - 1) as nat) + t, (a + n - 1) as nat))
            == fmul(
            fpow(finv(two_adic_gen(n)), rev_bits(t, (n - 1) as nat)),
            fpow(finv(two_adic_gen(a + n)), rev_bits(i, a)),
        ),
{
    let n1 = (n - 1) as nat;
    let g = finv(two_adic_gen(a + n));
    lemma_rev_bits_split(i, t, n1, a);
    assert((n1 + a) as nat == (a + n - 1) as nat);
    let rt = rev_bits(t, n1);
    let ri = rev_bits(i, a);
    lemma_fpow_add(g, rt * exp2(a), ri);
    assert(rt * exp2(a) == exp2(a) * rt) by (nonlinear_arith);
    lemma_fpow_mul(g, exp2(a), rt);
    lemma_two_adic_gen_inv_pow2(a + n, a);
    assert((a + n - a) as nat == n);
}

/// Entry `t` of row `i` of the binary fold, up to congruence:
/// `h (e[2t] + e[2t+1]) + (h B) z_t (e[2t] - e[2t+1])`.
proof fn lemma_binary_fold_entry(
    r0: int,
    r1: int,
    beta: int,
    h: int,
    z: int,
    w: int,
    sum: int,
    diff: int,
)
    requires
        sum == fadd(r0, r1),
        diff == fmul(z, fsub(r0, r1)),
    ensures
        eqm(
            fold_row_binary_spec(r0, r1, fmul(fmul(beta, h), fmul(z, w)), h),
            h * sum + (h * fmul(beta, w)) * diff,
        ),
{
    let s = fmul(fmul(beta, h), fmul(z, w));
    lemma_binary_sum_diff(r0, r1, s, h);
    lemma_ops_eqm(r0, r1);
    lemma_eqm_mul(h, sum, h, r0 + r1);
    // s = (h (beta w)) z
    lemma_fmul_assoc(beta, h, fmul(z, w));
    lemma_fmul_comm(z, w);
    lemma_fmul_assoc(h, w, z);
    lemma_fmul_assoc(beta, h, fmul(w, z));
    lemma_fmul_assoc(beta, fmul(h, w), z);
    lemma_fmul_assoc(beta, h, w);
    lemma_fmul_comm(beta, h);
    lemma_fmul_assoc(h, beta, w);
    assert(s == fmul(fmul(h, fmul(beta, w)), z)) by {
        assert(s == fmul(beta, fmul(h, fmul(z, w))));
        assert(fmul(h, fmul(z, w)) == fmul(h, fmul(w, z)));
        assert(fmul(h, fmul(w, z)) == fmul(fmul(h, w), z));
        assert(fmul(beta, fmul(fmul(h, w), z)) == fmul(fmul(beta, fmul(h, w)), z));
        assert(fmul(beta, fmul(h, w)) == fmul(fmul(beta, h), w));
        assert(fmul(fmul(beta, h), w) == fmul(fmul(h, beta), w));
        assert(fmul(fmul(h, beta), w) == fmul(h, fmul(beta, w)));
    }
    let hb = fmul(h, fmul(beta, w));
    lemma_ops_eqm(h, fmul(beta, w));
    lemma_ops_eqm(hb, z);
    lemma_ops_eqm(z, fsub(r0, r1));
    lemma_eqm_mul(hb, z, h * fmul(beta, w), z);
    lemma_eqm_mul(s, r0 - r1, (h * fmul(beta, w)) * z, r0 - r1);
    lemma_eqm_mul(z, fsub(r0, r1), z, r0 - r1);
    lemma_eqm_mul(h * fmul(beta, w), diff, h * fmul(beta, w), z * (r0 - r1));
    assert(((h * fmul(beta, w)) * z) * (r0 - r1) == (h * fmul(beta, w)) * (z * (r0 - r1)))
        by (nonlinear_arith);
    lemma_eqm_add(h * (r0 + r1), s * (r0 - r1), h * sum, (h * fmul(beta, w)) * diff);
}


/// Sizes: `2^(a+n) / 2^n = 2^a` and `(2^(a+n) / 2) / 2^(n-1) = 2^a`.
proof fn lemma_sizes(a: nat, n: nat)
    requires
        n >= 1,
    ensures
        exp2(a + n) / exp2(n) == exp2(a),
        exp2(a + n) / 2 == exp2((a + n - 1) as nat),
        exp2((a + n - 1) as nat) / exp2((n - 1) as nat) == exp2(a),
        exp2(n) == 2 * exp2((n - 1) as nat),
        exp2(a + n) == exp2(a) * exp2(n),
        exp2((a + n - 1) as nat) == exp2(a) * exp2((n - 1) as nat),
        log2(exp2(a)) == a,
        log2(exp2((a + n - 1) as nat)) == (a + n - 1) as nat,
{
    let n1 = (n - 1) as nat;
    lemma_exp2_add(a, n);
    lemma_exp2_add(a, n1);
    assert((a + n1) as nat == (a + n - 1) as nat);
    lemma_exp2_pos(n);
    lemma_exp2_pos(n1);
    lemma_exp2_pos(a);
    vstd::arithmetic::div_mod::lemma_div_by_multiple(exp2(a) as int, exp2(n) as int);
    vstd::arithmetic::div_mod::lemma_div_by_multiple(exp2(a) as int, exp2(n1) as int);
    assert(exp2(a + n) == 2 * exp2((a + n - 1) as nat));
    lemma_log2_exp2(a);
    lemma_log2_exp2((a + n - 1) as nat);
}

/// Entry `i` of a fold of arity `2^n` equals entry `i` of the fold of arity `2^(n-1)` applied
/// to the binary fold with `beta` squared.
proof fn lemma_fold_entry_step(v: Seq<int>, beta: int, a: nat, n: nat, i: int)
    requires
        1 <= n,
        a + n <= 27,
        v.len() == exp2(a + n),
        forall|j: int| 0 <= j < v.len() ==> canon(#[trigger] v[j]),
        canon(beta),
        0 <= i < exp2(a),
    ensures
        fold_spec(v, beta, n)[i] == fold_spec(
            fold_even_odd_spec(v, beta),
            fmul(beta, beta),
            (n - 1) as nat,
        )[i],
{
    let n1 = (n - 1) as nat;
    lemma_sizes(a, n);
    let big_w = exp2(n);
    let w2 = exp2(n1);
    let hgt = exp2(a);
    let f1 = fold_even_odd_spec(v, beta);
    assert(f1.len() == exp2((a + n - 1) as nat));
    let h = finv(2);
    crate::fold_laws::lemma_half();
    // the points
    let g = finv(two_adic_gen(a + n));
    let g2 = finv(two_adic_gen((a + n - 1) as nat));
    lemma_two_adic_gen_inv_pow2(a + n, 1);
    lemma_two_adic_gen_inv_pow2(a + n, 0);
    lemma_exp2_values();
    lemma_fpow_two(g);
    assert(g2 == fmul(g, g));
    let ri = rev_bits(i as nat, a);
    let w = fpow(g, ri);
    lemma_fpow_range(g, ri);
    lemma_fpow_mul_base(g, g, ri);
    let bb = fmul(beta, w);
    let bb2 = fmul(fmul(beta, beta), fpow(g2, ri));
    lemma_fmul_square_product(beta, w);
    assert(bb2 == fmul(bb, bb));
    // the rows
    let e = row_vals(v, i, big_w);
    let e2 = row_vals(f1, i, w2);
    assert(i * big_w + big_w <= v.len()) by {
        assert(i + 1 <= hgt);
        vstd::arithmetic::mul::lemma_mul_inequality(i + 1, hgt as int, big_w as int);
        assert((i + 1) * big_w == i * big_w + big_w) by (nonlinear_arith);
    }
    assert(i * w2 + w2 <= f1.len()) by {
        assert(i + 1 <= hgt);
        vstd::arithmetic::mul::lemma_mul_inequality(i + 1, hgt as int, w2 as int);
        assert((i + 1) * w2 == i * w2 + w2) by (nonlinear_arith);
    }
    assert(e.len() == big_w && e2.len() == w2);
    let r = roots_inv_spec(n);
    let r2 = roots_inv_spec(n1);
    lemma_roots_inv_halves(n);
    let z = finv(two_adic_gen(n));
    // the first layer, split into sums and differences
    let l0 = bf_layer(e, r, 0);
    let sums = evens(l0);
    let diffs = odds(l0);
    assert(sums.len() == w2 && diffs.len() == w2);
    assert forall|t: int| 0 <= t < w2 implies eqm(
        #[trigger] e2[t],
        h * sums[t] + (h * bb) * diffs[t],
    ) by {
        let j = i * w2 + t;
        assert(e2[t] == f1[j]);
        assert(0 <= j < f1.len());
        assert(2 * j == i * big_w + 2 * t) by (nonlinear_arith)
            requires
                big_w == 2 * w2,
                j == i * w2 + t,
        ;
        assert(e[2 * t] == v[2 * j] && e[2 * t + 1] == v[2 * j + 1]);
        assert(exp2(0) == 1);
        assert((2 * t) % 2 == 0 && (2 * t + 1) % 2 == 1);
        assert(sums[t] == fadd(e[2 * t], e[2 * t + 1]));
        assert(diffs[t] == fmul(r[2 * t], fsub(e[2 * t], e[2 * t + 1])));
        let zt = fpow(z, rev_bits(t as nat, n1));
        assert(r[2 * t] == zt);
        assert(log2(f1.len()) == (a + n - 1) as nat);
        assert(((a + n - 1) as nat + 1) as nat == a + n);
        lemma_twiddle_split(i as nat, t as nat, a, n);
        assert(f1[j] == fold_row_binary_spec(
            v[2 * j],
            v[2 * j + 1],
            fmul(fmul(beta, h), fmul(zt, w)),
            h,
        ));
        lemma_binary_fold_entry(e[2 * t], e[2 * t + 1], beta, h, zt, w, sums[t], diffs[t]);
    }
    // both rows go through the network of n - 1 layers
    let bs = butterflies(sums, r2, n1);
    let bd = butterflies(diffs, r2, n1);
    let be2 = butterflies(e2, r2, n1);
    lemma_butterflies_len(sums, r2, n1);
    lemma_butterflies_len(diffs, r2, n1);
    lemma_butterflies_len(e2, r2, n1);
    lemma_butterflies_linear(sums, diffs, e2, h, h * bb, r2, n1, n1);
    lemma_horner_linear(bs, bd, be2, h, h * bb, bb2);
    let hs = horner(bs, bb2);
    let hd = horner(bd, bb2);
    // the left-hand side: horner over the full network splits into evens and odds
    let bfull = butterflies(e, r, n);
    lemma_butterflies_len(e, r, n);
    lemma_butterflies_split(e, r, r2, n1, n);
    assert((n1 + 1) as nat == n);
    assert(bfull.len() % 2 == 0);
    lemma_horner_split(bfull, bb);
    lemma_ops_eqm(bb, bb);
    lemma_horner_eqm_point(evens(bfull), bb * bb, bb2);
    lemma_horner_eqm_point(odds(bfull), bb * bb, bb2);
    assert(eqm(horner(bfull, bb), hs + bb * hd));
    // the normalizing factors: 1 / 2^n = (1 / 2^(n-1)) (1 / 2)
    lemma_finv_exp2(n);
    lemma_finv_exp2(n1);
    assert(fpow(h, n) == fmul(fpow(h, n1), h));
    let fw = finv(big_w as int);
    let fw2 = finv(w2 as int);
    assert(fw == fmul(fw2, h));
    // combine
    let lhs = fmul(horner(bfull, bb), fw);
    let rhs = fmul(horner(be2, bb2), fw2);
    assert(fold_spec(v, beta, n)[i] == fold_row_large_spec(
        e,
        r,
        w,
        beta,
        fw,
        n,
    ));
    assert(fold_spec(f1, fmul(beta, beta), n1)[i] == fold_row_large_spec(
        e2,
        r2,
        fpow(g2, ri),
        fmul(beta, beta),
        fw2,
        n1,
    ));
    lemma_combine(horner(bfull, bb), horner(be2, bb2), hs, hd, bb, h, fw, fw2);
}

/// `X fw = Y fw2` when `X = hs + b hd`, `Y = h hs + (h b) hd` and `fw = fw2 h`.
proof fn lemma_combine(x: int, y: int, hs: int, hd: int, b: int, h: int, fw: int, fw2: int)
    requires
        eqm(x, hs + b * hd),
        eqm(y, h * hs + (h * b) * hd),
        fw == fmul(fw2, h),
    ensures
        fmul(x, fw) == fmul(y, fw2),
{
    lemma_ops_eqm(fw2, h);
    lemma_eqm_mul(x, fw, hs + b * hd, fw2 * h);
    lemma_eqm_mul(y, fw2, h * hs + (h * b) * hd, fw2);
    assert((hs + b * hd) * (fw2 * h) == (h * hs + (h * b) * hd) * fw2) by (nonlinear_arith);
    lemma_ops_eqm(x, fw);
    lemma_ops_eqm(y, fw2);
    lemma_eqm_canon_eq(fmul(x, fw), fmul(y, fw2));
}

/// `fold_even_odd` applied `n` times, with `beta` squared after each fold.
pub open spec fn iterated_fold_even_odd(v: Seq<int>, beta: int, n: nat) -> Seq<int>
    decreases n,
{
    if n == 0 {
        v
    } else {
        iterated_fold_even_odd(fold_even_odd_spec(v, beta), fmul(beta, beta), (n - 1) as nat)
    }
}

/// **Folding by `2^n` at once is folding by two `n` times.** For a vector of `2^(a+n)`
/// evaluations, `fold` with `log_arity = n` gives what `n` successive `fold_even_odd` give,
/// `beta` being squared after each of them.
pub proof fn law_fold_is_iterated_fold_even_odd(v: Seq<int>, beta: int, a: nat, n: nat)
    requires
        a + n <= 27,
        v.len() == exp2(a + n),
        forall|j: int| 0 <= j < v.len() ==> canon(#[trigger] v[j]),
        canon(beta),
    ensures
        fold_spec(v, beta, n) == iterated_fold_even_odd(v, beta, n),
    decreases n,
{
    if n == 0 {
        lemma_exp2_values();
        assert(a + 0 == a);
        let f = fold_spec(v, beta, 0);
        crate::fold_laws::lemma_finv_one();
        assert forall|i: int| 0 <= i < v.len() implies f[i] == v[i] by {
            let e = row_vals(v, i, 1);
            assert(e.len() == 1 && e[0] == v[i]);
            assert(butterflies(e, roots_inv_spec(0), 0) == e);
            assert(e.drop_first().len() == 0);
            assert(horner(e.drop_first(), 0) == 0);
            let b = fmul(beta, fpow(finv(two_adic_gen(log2(v.len()))), rev_bits(i as nat, log2(v.len()))));
            assert(horner(e.drop_first(), b) == 0);
            assert(horner(e, b) == fadd(fmul(0, b), v[i]));
            lemma_canon_mod(v[i]);
            assert(fmul(v[i], 1) == v[i]);
        }
        assert(f =~= v);
    } else {
        let n1 = (n - 1) as nat;
        let f1 = fold_even_odd_spec(v, beta);
        lemma_sizes(a, n);
        assert(f1.len() == exp2(a + n1));
        assert forall|j: int| 0 <= j < f1.len() implies canon(#[trigger] f1[j]) by {
            let hh = finv(2);
            let s = fmul(fmul(beta, hh), fpow(finv(two_adic_gen(log2(f1.len()) + 1)), rev_bits(j as nat, log2(f1.len()))));
            lemma_ops_eqm(fmul(fadd(hh, s), v[2 * j]), fmul(fsub(hh, s), v[2 * j + 1]));
        }
        lemma_ops_eqm(beta, beta);
        law_fold_is_iterated_fold_even_odd(f1, fmul(beta, beta), a, n1);
        let lhs = fold_spec(v, beta, n);
        let rhs = fold_spec(f1, fmul(beta, beta), n1);
        assert(lhs.len() == exp2(a) && rhs.len() == exp2(a));
        assert forall|i: int| 0 <= i < exp2(a) implies lhs[i] == rhs[i] by {
            lemma_fold_entry_step(v, beta, a, n, i);
        }
        assert(lhs =~= rhs);
    }
}

} // verus!
