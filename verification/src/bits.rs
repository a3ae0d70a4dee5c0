//! Powers of two, base-2 logarithms and the bit-reversal permutation of indices.
use vstd::arithmetic::div_mod::*;
use vstd::arithmetic::mul::*;
use vstd::arithmetic::power::lemma_pow0;
use vstd::arithmetic::power2::{lemma_pow2_unfold, pow2};
use vstd::bits::lemma_usize_shl_is_mul;
use vstd::prelude::*;

verus! {

/// `2^k`.
pub open spec fn exp2(k: nat) -> nat
    decreases k,
{
    if k == 0 {
        1
    } else {
        2 * exp2((k - 1) as nat)
    }
}

/// `n` is a power of two, `2^log2(n)`.
pub open spec fn is_pow2(n: nat) -> bool {
    exists|k: nat| exp2(k) == n
}

/// The base-2 logarithm of a power of two (rounded down for other numbers).
pub open spec fn log2(n: nat) -> nat
    decreases n,
{
    if n <= 1 {
        0
    } else {
        1 + log2(n / 2)
    }
}

/// The index `x` with its lowest `k` bits written in reverse order.
pub open spec fn rev_bits(x: nat, k: nat) -> nat
    decreases k,
{
    if k == 0 {
        0
    } else {
        (x % 2) * exp2((k - 1) as nat) + rev_bits(x / 2, (k - 1) as nat)
    }
}

/// Computes `log_2(n)` for a power of two, as `p3_util::log2_strict_usize` does; the
/// function panics on any other `n`, which `requires` leaves out.
pub assume_specification[ p3_util::log2_strict_usize ](n: usize) -> (r: usize)
    requires
        is_pow2(n as nat),
    ensures
        exp2(r as nat) == n,
        r as nat == log2(n as nat),
;

/// `1 << k` for a shift that keeps it within `usize`.
pub fn shl1(k: usize) -> (r: usize)
    requires
        k < 32,
    ensures
        r == exp2(k as nat),
{
    proof {
        lemma_exp2_is_pow2(k as nat);
        lemma_exp2_mono(k as nat, 31);
        assert(exp2(31) == 0x80000000) by {
            lemma_exp2_values();
        }
        lemma_usize_shl_is_mul(1, k);
    }
    1usize << k
}

// ---------------------------------------------------------------------------------------------
pub proof fn lemma_exp2_is_pow2(k: nat)
    ensures
        exp2(k) == pow2(k),
    decreases k,
{
    if k > 0 {
        lemma_exp2_is_pow2((k - 1) as nat);
        lemma_pow2_unfold(k);
    } else {
        lemma_pow0(2);
    }
}

pub proof fn lemma_exp2_values()
    ensures
        exp2(0) == 1,
        exp2(1) == 2,
        exp2(2) == 4,
        exp2(27) == 0x8000000,
        exp2(31) == 0x80000000,
        exp2(32) == 0x100000000,
{
    reveal_with_fuel(exp2, 33);
}

pub proof fn lemma_exp2_pos(k: nat)
    ensures
        exp2(k) >= 1,
    decreases k,
{
    if k > 0 {
        lemma_exp2_pos((k - 1) as nat);
    }
}

pub proof fn lemma_exp2_mono(a: nat, b: nat)
    requires
        a <= b,
    ensures
        exp2(a) <= exp2(b),
    decreases b,
{
    lemma_exp2_pos(a);
    if a < b {
        lemma_exp2_mono(a, (b - 1) as nat);
    }
}

pub proof fn lemma_exp2_strict(a: nat, b: nat)
    requires
        a < b,
    ensures
        exp2(a) < exp2(b),
    decreases b,
{
    lemma_exp2_pos(a);
    lemma_exp2_mono(a, (b - 1) as nat);
}

pub proof fn lemma_exp2_add(a: nat, b: nat)
    ensures
        exp2(a + b) == exp2(a) * exp2(b),
    decreases b,
{
    if b > 0 {
        let b1 = (b - 1) as nat;
        lemma_exp2_add(a, b1);
        assert((a + b1) as nat == (a + b - 1) as nat);
        assert(exp2(a + b) == 2 * exp2((a + b - 1) as nat));
        let x = exp2(a) as int;
        let y = exp2(b1) as int;
        assert(2 * (x * y) == x * (2 * y)) by (nonlinear_arith);
        assert(exp2(b) == 2 * y);
        assert(exp2(a + b) == 2 * (x * y));
        assert(exp2(a) * exp2(b) == x * (2 * y));
    } else {
        assert(a + b == a);
        assert(exp2(0) == 1);
        assert(exp2(a) * 1 == exp2(a));
    }
}

/// The logarithm of `2^k` is `k`.
pub proof fn lemma_log2_exp2(k: nat)
    ensures
        log2(exp2(k)) == k,
        is_pow2(exp2(k)),
    decreases k,
{
    if k > 0 {
        lemma_log2_exp2((k - 1) as nat);
        lemma_exp2_pos((k - 1) as nat);
        assert(exp2(k) / 2 == exp2((k - 1) as nat));
    }
}

/// A power of two is `2^log2` of itself.
pub proof fn lemma_pow2_log2(n: nat)
    requires
        is_pow2(n),
    ensures
        exp2(log2(n)) == n,
        n >= 1,
{
    let k = choose|k: nat| exp2(k) == n;
    lemma_log2_exp2(k);
    lemma_exp2_pos(k);
}

pub proof fn lemma_rev_bits_bound(x: nat, k: nat)
    ensures
        rev_bits(x, k) < exp2(k),
    decreases k,
{
    if k > 0 {
        lemma_rev_bits_bound(x / 2, (k - 1) as nat);
        assert(x % 2 <= 1);
        lemma_mul_inequality((x % 2) as int, 1, exp2((k - 1) as nat) as int);
    }
}

/// Reversing `x * 2^a + t` over `a + b` bits: the low part comes first.
pub proof fn lemma_rev_bits_split(i: nat, t: nat, a: nat, b: nat)
    requires
        t < exp2(a),
    ensures
        rev_bits(i * exp2(a) + t, a + b) == rev_bits(t, a) * exp2(b) + rev_bits(i, b),
    decreases a,
{
    if a == 0 {
        assert(exp2(a) == 1);
        assert(t == 0);
        assert(i * exp2(a) + t == i);
        assert(a + b == b);
        assert(rev_bits(t, a) == 0);
        assert(rev_bits(t, a) * exp2(b) == 0);
    } else {
        let x = i * exp2(a) + t;
        let a1 = (a - 1) as nat;
        // x = (i * 2^(a-1) + t / 2) * 2 + t % 2
        assert(exp2(a) == 2 * exp2(a1));
        lemma_fundamental_div_mod(t as int, 2);
        assert(i * exp2(a) == (i * exp2(a1)) * 2) by {
            lemma_mul_is_associative(i as int, exp2(a1) as int, 2);
            lemma_mul_is_commutative(exp2(a1) as int, 2);
        }
        assert(x == (i * exp2(a1) + t / 2) * 2 + t % 2);
        lemma_fundamental_div_mod_converse(x as int, 2, (i * exp2(a1) + t / 2) as int, (t % 2) as int);
        assert(x / 2 == i * exp2(a1) + t / 2);
        assert(x % 2 == t % 2);
        assert(t / 2 < exp2(a1)) by {
            lemma_div_is_ordered(t as int, (2 * exp2(a1) - 1) as int, 2);
        }
        lemma_rev_bits_split(i, t / 2, a1, b);
        let y = i * exp2(a1) + t / 2;
        assert(rev_bits(y, a1 + b) == rev_bits(t / 2, a1) * exp2(b) + rev_bits(i, b));
        // rev(x, a + b) = (t % 2) * 2^(a - 1 + b) + rev(t / 2, a - 1) * 2^b + rev(i, b)
        assert((a1 + b) as nat == (a + b - 1) as nat);
        assert(rev_bits(x, a + b) == (x % 2) * exp2((a + b - 1) as nat) + rev_bits(
            x / 2,
            (a + b - 1) as nat,
        ));
        assert(rev_bits(x, a + b) == (t % 2) * exp2(a1 + b) + rev_bits(y, a1 + b));
        assert(rev_bits(t, a) == (t % 2) * exp2(a1) + rev_bits(t / 2, a1));
        lemma_exp2_add(a1, b);
        assert((t % 2) * exp2((a + b - 1) as nat) == ((t % 2) * exp2(a1)) * exp2(b)) by {
            lemma_mul_is_associative((t % 2) as int, exp2(a1) as int, exp2(b) as int);
        }
        assert(rev_bits(t, a) * exp2(b) == ((t % 2) * exp2(a1)) * exp2(b) + rev_bits(t / 2, a1)
            * exp2(b)) by {
            lemma_mul_is_distributive_add_other_way(
                exp2(b) as int,
                ((t % 2) * exp2(a1)) as int,
                rev_bits(t / 2, a1) as int,
            );
        }
    }
}

/// Reversal of `2i` and `2i + 1` over `k + 1` bits, from the reversal of `i` over `k` bits.
pub proof fn lemma_rev_bits_even_odd(i: nat, k: nat)
    ensures
        rev_bits(2 * i, k + 1) == rev_bits(i, k),
        rev_bits(2 * i + 1, k + 1) == rev_bits(i, k) + exp2(k),
{
    assert((2 * i) % 2 == 0 && (2 * i) / 2 == i) by {
        lemma_fundamental_div_mod_converse((2 * i) as int, 2, i as int, 0);
    }
    assert((2 * i + 1) % 2 == 1 && (2 * i + 1) / 2 == i) by {
        lemma_fundamental_div_mod_converse((2 * i + 1) as int, 2, i as int, 1);
    }
}


/// `2^l` divides `2^k` for `l <= k`.
pub proof fn lemma_exp2_divides(l: nat, k: nat)
    requires
        l <= k,
    ensures
        exp2(k) % exp2(l) == 0,
        exp2(k) == exp2((k - l) as nat) * exp2(l),
{
    lemma_exp2_add((k - l) as nat, l);
    assert(((k - l) as nat + l) as nat == k);
    lemma_exp2_pos(l);
    vstd::arithmetic::div_mod::lemma_mod_multiples_basic(exp2((k - l) as nat) as int, exp2(l) as int);
}

/// A multiple of `len` below a multiple `h` of `len` leaves room for a whole block.
pub proof fn lemma_block_fits(i: int, len: int, h: int)
    requires
        len > 0,
        i % len == 0,
        h % len == 0,
        0 <= i < h,
    ensures
        i + len <= h,
{
    lemma_fundamental_div_mod(i, len);
    lemma_fundamental_div_mod(h, len);
    let q = i / len;
    let qh = h / len;
    if q >= qh {
        lemma_mul_inequality(qh, q, len);
        lemma_mul_is_commutative(qh, len);
        lemma_mul_is_commutative(q, len);
    }
    assert(q + 1 <= qh);
    lemma_mul_inequality(q + 1, qh, len);
    lemma_mul_is_commutative(q + 1, len);
    lemma_mul_is_commutative(qh, len);
    lemma_mul_is_distributive_add(len, q, 1);
}

/// The position of `i + j` inside its block of length `len`, for `i` a multiple of `len`.
pub proof fn lemma_block_pos(i: int, j: int, len: int)
    requires
        len > 0,
        i % len == 0,
        0 <= j < len,
        i >= 0,
    ensures
        (i + j) % len == j,
        (i + j) / len == i / len,
{
    lemma_fundamental_div_mod(i, len);
    lemma_mul_is_commutative(len, i / len);
    assert(i + j == (i / len) * len + j);
    lemma_fundamental_div_mod_converse(i + j, len, i / len, j);
}

/// `x >> k == x / 2^k`.
pub proof fn lemma_shr_is_div(x: usize, k: usize)
    requires
        k < 32,
    ensures
        x >> k == x / (exp2(k as nat) as usize),
        exp2(k as nat) <= usize::MAX,
{
    lemma_exp2_is_pow2(k as nat);
    lemma_exp2_mono(k as nat, 31);
    lemma_exp2_values();
    vstd::bits::lemma_usize_shr_is_div(x, k);
}


/// `2^a < 2^b` implies `a < b`, and `2^a <= 2^b` implies `a <= b`.
pub proof fn lemma_exp2_strict_inv(a: nat, b: nat)
    ensures
        exp2(a) < exp2(b) ==> a < b,
        exp2(a) <= exp2(b) ==> a <= b,
{
    if a >= b {
        lemma_exp2_mono(b, a);
    }
    if a > b {
        lemma_exp2_strict(b, a);
    }
}

} // verus!
