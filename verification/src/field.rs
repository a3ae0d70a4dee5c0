//! Elements of the Baby Bear prime field `F_p`, `p = 2^31 - 2^27 + 1`, held as canonical `u32`
//! values, with the modular arithmetic they obey.
use p3_baby_bear::BabyBear;
use p3_field::{AbstractField, Field, PrimeField32, TwoAdicField};
use vstd::arithmetic::div_mod::*;
use vstd::arithmetic::mul::*;
use vstd::prelude::*;

verus! {

/// The Baby Bear modulus `2^31 - 2^27 + 1`.
pub const P: u32 = 2013265921u32;

/// The largest `bits` for which a multiplicative subgroup of order `2^bits` exists.
pub const TWO_ADICITY: usize = 27usize;

/// The modulus as a mathematical integer.
pub open spec fn p() -> int {
    2013265921
}

/// A field element in canonical form: its value is below `P`.
#[derive(Clone, Copy, Debug, PartialEq, Eq, Structural)]
pub struct Fp {
    pub v: u32,
}

impl Fp {
    /// The value stands for a field element: it is reduced below `P`.
    pub open spec fn wf(self) -> bool {
        self.v < P
    }

    /// The element as an integer in `[0, p)`.
    pub open spec fn val(self) -> int {
        self.v as int
    }

    pub fn zero() -> (r: Fp)
        ensures
            r.wf(),
            r.v == 0,
    {
        Fp { v: 0 }
    }

    pub fn one() -> (r: Fp)
        ensures
            r.wf(),
            r.v == 1,
    {
        Fp { v: 1 }
    }

    /// The element of value `n`, which must already be canonical.
    pub fn from_canonical_u32(n: u32) -> (r: Fp)
        requires
            n < P,
        ensures
            r.wf(),
            r.v == n,
    {
        Fp { v: n }
    }

    /// The element congruent to `n`.
    pub fn from_wrapped_u32(n: u32) -> (r: Fp)
        ensures
            r.wf(),
            r.val() == (n as int) % p(),
    {
        Fp { v: n % P }
    }

    pub fn add(self, other: Fp) -> (r: Fp)
        requires
            self.wf(),
            other.wf(),
        ensures
            r.wf(),
            r.val() == fadd(self.val(), other.val()),
    {
        let s: u32 = self.v + other.v;
        if s >= P {
            proof {
                lemma_fundamental_div_mod_converse(s as int, p(), 1, s - p());
            }
            Fp { v: s - P }
        } else {
            proof {
                lemma_small_mod(s as nat, p() as nat);
            }
            Fp { v: s }
        }
    }

    pub fn sub(self, other: Fp) -> (r: Fp)
        requires
            self.wf(),
            other.wf(),
        ensures
            r.wf(),
            r.val() == fsub(self.val(), other.val()),
    {
        if self.v >= other.v {
            proof {
                lemma_small_mod((self.v - other.v) as nat, p() as nat);
            }
            Fp { v: self.v - other.v }
        } else {
            let d: u32 = P - other.v;
            proof {
                lemma_fundamental_div_mod_converse(
                    self.v - other.v,
                    p(),
                    -1,
                    self.v + d,
                );
            }
            Fp { v: self.v + d }
        }
    }

    pub fn neg(self) -> (r: Fp)
        requires
            self.wf(),
        ensures
            r.wf(),
            r.val() == fneg(self.val()),
    {
        let z = Fp::zero();
        let r = z.sub(self);
        r
    }

    pub fn mul(self, other: Fp) -> (r: Fp)
        requires
            self.wf(),
            other.wf(),
        ensures
            r.wf(),
            r.val() == fmul(self.val(), other.val()),
    {
        let a: u64 = self.v as u64;
        let b: u64 = other.v as u64;
        proof {
            lemma_mul_upper_bound(a as int, p() - 1, b as int, p() - 1);
            assert(2013265920int * 2013265920int <= u64::MAX) by (nonlinear_arith);
        }
        let prod: u64 = a * b;
        let r: u64 = prod % (P as u64);
        Fp { v: r as u32 }
    }

    pub fn square(self) -> (r: Fp)
        requires
            self.wf(),
        ensures
            r.wf(),
            r.val() == fmul(self.val(), self.val()),
    {
        self.mul(self)
    }

    /// The multiplicative inverse, computed by the Baby Bear field of `p3_baby_bear`.
    /// Its contract: the product of the element and the result is 1. `Field::inverse`
    /// panics on zero, which `requires` leaves out.
    #[verifier::external_body]
    pub(crate) fn inverse(self) -> (r: Fp)
        requires
            self.wf(),
            self.v != 0,
        ensures
            r.wf(),
            fmul(self.val(), r.val()) == 1,
    {
        Fp { v: BabyBear::from_canonical_u32(self.v).inverse().as_canonical_u32() }
    }

    /// The generator of the multiplicative subgroup of order `2^bits`, as `TwoAdicField`
    /// gives it for Baby Bear: entry `bits` of the crate's table of generators, which
    /// `two_adic_gen` lists. The function asserts `bits <= TWO_ADICITY`.
    #[verifier::external_body]
    pub(crate) fn two_adic_generator(bits: usize) -> (r: Fp)
        requires
            bits <= TWO_ADICITY,
        ensures
            r.wf(),
            r.val() == two_adic_gen(bits as nat),
    {
        Fp { v: BabyBear::two_adic_generator(bits).as_canonical_u32() }
    }
}

/// `start, start * base, start * base^2, ...` (`n` of them), as `Field::shifted_powers`
/// yields them for Baby Bear: each is the previous one times `base`.
#[verifier::external_body]
pub(crate) fn shifted_powers(base: Fp, start: Fp, n: usize) -> (r: Vec<Fp>)
    requires
        base.wf(),
        start.wf(),
    ensures
        r@.len() == n,
        forall|k: int|
            0 <= k < n ==> (#[trigger] r@[k]).wf() && r@[k].val() == fmul(
                start.val(),
                fpow(base.val(), k as nat),
            ),
{
    BabyBear::from_canonical_u32(base.v).shifted_powers(BabyBear::from_canonical_u32(start.v)).take(
        n,
    ).map(|x| Fp { v: x.as_canonical_u32() }).collect()
}

/// `base^0, base^1, ...` (`n` of them).
pub fn powers(base: Fp, n: usize) -> (r: Vec<Fp>)
    requires
        base.wf(),
    ensures
        r@.len() == n,
        forall|k: int|
            0 <= k < n ==> (#[trigger] r@[k]).wf() && r@[k].val() == fpow(base.val(), k as nat),
{
    let one = Fp::one();
    let r = shifted_powers(base, one, n);
    assert forall|k: int| 0 <= k < n implies (#[trigger] r@[k]).wf() && r@[k].val() == fpow(
        base.val(),
        k as nat,
    ) by {
        lemma_fpow_range(base.val(), k as nat);
        lemma_fmul_one_left(fpow(base.val(), k as nat));
    }
    r
}

/// The table of two-adic generators of Baby Bear: entry `bits` generates the subgroup
/// of order `2^bits`.
#[verifier::opaque]
pub open spec fn two_adic_gen(bits: nat) -> int {
    let t = seq![
        0x1int, 0x78000000, 0x67055c21, 0x5ee99486, 0xbb4c4e4, 0x2d4cc4da, 0x669d6090,
        0x17b56c64, 0x67456167, 0x688442f9, 0x145e952d, 0x4fe61226, 0x4c734715, 0x11c33e2a,
        0x62c3d2b1, 0x77cad399, 0x54c131f4, 0x4cabd6a6, 0x5cf5713f, 0x3e9430e8, 0xba067a3,
        0x18adc27d, 0x21fd55bc, 0x4b859b3d, 0x3bd57996, 0x4483d85a, 0x3a26eef8, 0x1a427a41,
    ];
    if bits < 28 {
        t[bits as int]
    } else {
        0
    }
}

// ---------------------------------------------------------------------------------------------
// The field operations on integers in [0, p)
pub open spec fn fadd(a: int, b: int) -> int {
    (a + b) % p()
}

pub open spec fn fsub(a: int, b: int) -> int {
    (a - b) % p()
}

pub open spec fn fneg(a: int) -> int {
    (-a) % p()
}

pub open spec fn fmul(a: int, b: int) -> int {
    (a * b) % p()
}

/// `a^k` in the field.
pub open spec fn fpow(a: int, k: nat) -> int
    decreases k,
{
    if k == 0 {
        1
    } else {
        fmul(fpow(a, (k - 1) as nat), a)
    }
}

/// The multiplicative inverse of `a`, where one exists.
pub open spec fn finv(a: int) -> int {
    choose|b: int| 0 <= b < p() && #[trigger] fmul(a, b) == 1
}

/// `a` and `b` are congruent modulo `p`.
pub open spec fn eqm(a: int, b: int) -> bool {
    a % p() == b % p()
}

/// `a` is a canonical representative.
pub open spec fn canon(a: int) -> bool {
    0 <= a < p()
}

// ---------------------------------------------------------------------------------------------
// Congruence lemmas
pub proof fn lemma_mod_range(a: int)
    ensures
        canon(a % p()),
        eqm(a % p(), a),
{
    lemma_mod_bound(a, p());
    lemma_mod_twice(a, p());
}

pub proof fn lemma_canon_mod(a: int)
    requires
        canon(a),
    ensures
        a % p() == a,
{
    lemma_small_mod(a as nat, p() as nat);
}

pub proof fn lemma_eqm_add(a: int, b: int, c: int, d: int)
    requires
        eqm(a, c),
        eqm(b, d),
    ensures
        eqm(a + b, c + d),
{
    lemma_add_mod_noop(a, b, p());
    lemma_add_mod_noop(c, d, p());
}

pub proof fn lemma_eqm_sub(a: int, b: int, c: int, d: int)
    requires
        eqm(a, c),
        eqm(b, d),
    ensures
        eqm(a - b, c - d),
{
    lemma_sub_mod_noop(a, b, p());
    lemma_sub_mod_noop(c, d, p());
}

pub proof fn lemma_eqm_mul(a: int, b: int, c: int, d: int)
    requires
        eqm(a, c),
        eqm(b, d),
    ensures
        eqm(a * b, c * d),
{
    lemma_mul_mod_noop(a, b, p());
    lemma_mul_mod_noop(c, d, p());
}

/// Two canonical congruent values are equal.
pub proof fn lemma_eqm_canon_eq(a: int, b: int)
    requires
        eqm(a, b),
        canon(a),
        canon(b),
    ensures
        a == b,
{
    lemma_canon_mod(a);
    lemma_canon_mod(b);
}

pub proof fn lemma_fmul_one_left(a: int)
    requires
        canon(a),
    ensures
        fmul(1, a) == a,
{
    lemma_canon_mod(a);
}

pub proof fn lemma_fpow_range(a: int, k: nat)
    ensures
        canon(fpow(a, k)),
    decreases k,
{
    if k > 0 {
        lemma_mod_range(fpow(a, (k - 1) as nat) * a);
    }
}

/// The inverse of a field element is unique: any `b` with `a * b = 1` is `finv(a)`.
pub proof fn lemma_finv_unique(a: int, b: int)
    requires
        canon(b),
        fmul(a, b) == 1,
    ensures
        finv(a) == b,
        canon(finv(a)),
        fmul(a, finv(a)) == 1,
{
    let c = finv(a);
    assert(0 <= b < p() && fmul(a, b) == 1);
    assert(0 <= c < p() && fmul(a, c) == 1);
    // c = c * (a * b) = (c * a) * b = b
    assert(eqm(c, c * (a * b))) by {
        lemma_mod_range(a * b);
        lemma_eqm_mul(c, 1, c, a * b);
    }
    assert(c * (a * b) == (a * c) * b) by {
        lemma_mul_is_associative(c, a, b);
        lemma_mul_is_commutative(c, a);
    }
    assert(eqm((a * c) * b, 1 * b)) by {
        lemma_mod_range(a * c);
        lemma_eqm_mul(a * c, b, 1, b);
    }
    lemma_eqm_canon_eq(c, b);
}

/// Facts of the table of generators: each entry is a nonzero canonical value, entry 1 is
/// `-1`, and squaring entry `b` gives entry `b - 1`.
pub proof fn lemma_two_adic_gen(b: nat)
    requires
        b <= 27,
    ensures
        0 < two_adic_gen(b) < p(),
        two_adic_gen(1) == p() - 1,
        two_adic_gen(0) == 1,
        b >= 1 ==> fmul(two_adic_gen(b), two_adic_gen(b)) == two_adic_gen((b - 1) as nat),
{
    reveal(two_adic_gen);
    if b == 0 {
        assert(two_adic_gen(0) == 1);
    } else if b == 1 {
        assert(two_adic_gen(1) == 2013265920);
        assert(two_adic_gen(0) == 1);
        assert((2013265920int * 2013265920int) % 2013265921int == 1int) by (nonlinear_arith);
    } else if b == 2 {
        assert(two_adic_gen(2) == 1728404513);
        assert(two_adic_gen(1) == 2013265920);
        assert((1728404513int * 1728404513int) % 2013265921int == 2013265920int) by (nonlinear_arith);
    } else if b == 3 {
        assert(two_adic_gen(3) == 1592366214);
        assert(two_adic_gen(2) == 1728404513);
        assert((1592366214int * 1592366214int) % 2013265921int == 1728404513int) by (nonlinear_arith);
    } else if b == 4 {
        assert(two_adic_gen(4) == 196396260);
        assert(two_adic_gen(3) == 1592366214);
        assert((196396260int * 196396260int) % 2013265921int == 1592366214int) by (nonlinear_arith);
    } else if b == 5 {
        assert(two_adic_gen(5) == 760005850);
        assert(two_adic_gen(4) == 196396260);
        assert((760005850int * 760005850int) % 2013265921int == 196396260int) by (nonlinear_arith);
    } else if b == 6 {
        assert(two_adic_gen(6) == 1721589904);
        assert(two_adic_gen(5) == 760005850);
        assert((1721589904int * 1721589904int) % 2013265921int == 760005850int) by (nonlinear_arith);
    } else if b == 7 {
        assert(two_adic_gen(7) == 397765732);
        assert(two_adic_gen(6) == 1721589904);
        assert((397765732int * 397765732int) % 2013265921int == 1721589904int) by (nonlinear_arith);
    } else if b == 8 {
        assert(two_adic_gen(8) == 1732600167);
        assert(two_adic_gen(7) == 397765732);
        assert((1732600167int * 1732600167int) % 2013265921int == 397765732int) by (nonlinear_arith);
    } else if b == 9 {
        assert(two_adic_gen(9) == 1753498361);
        assert(two_adic_gen(8) == 1732600167);
        assert((1753498361int * 1753498361int) % 2013265921int == 1732600167int) by (nonlinear_arith);
    } else if b == 10 {
        assert(two_adic_gen(10) == 341742893);
        assert(two_adic_gen(9) == 1753498361);
        assert((341742893int * 341742893int) % 2013265921int == 1753498361int) by (nonlinear_arith);
    } else if b == 11 {
        assert(two_adic_gen(11) == 1340477990);
        assert(two_adic_gen(10) == 341742893);
        assert((1340477990int * 1340477990int) % 2013265921int == 341742893int) by (nonlinear_arith);
    } else if b == 12 {
        assert(two_adic_gen(12) == 1282623253);
        assert(two_adic_gen(11) == 1340477990);
        assert((1282623253int * 1282623253int) % 2013265921int == 1340477990int) by (nonlinear_arith);
    } else if b == 13 {
        assert(two_adic_gen(13) == 298008106);
        assert(two_adic_gen(12) == 1282623253);
        assert((298008106int * 298008106int) % 2013265921int == 1282623253int) by (nonlinear_arith);
    } else if b == 14 {
        assert(two_adic_gen(14) == 1657000625);
        assert(two_adic_gen(13) == 298008106);
        assert((1657000625int * 1657000625int) % 2013265921int == 298008106int) by (nonlinear_arith);
    } else if b == 15 {
        assert(two_adic_gen(15) == 2009781145);
        assert(two_adic_gen(14) == 1657000625);
        assert((2009781145int * 2009781145int) % 2013265921int == 1657000625int) by (nonlinear_arith);
    } else if b == 16 {
        assert(two_adic_gen(16) == 1421947380);
        assert(two_adic_gen(15) == 2009781145);
        assert((1421947380int * 1421947380int) % 2013265921int == 2009781145int) by (nonlinear_arith);
    } else if b == 17 {
        assert(two_adic_gen(17) == 1286330022);
        assert(two_adic_gen(16) == 1421947380);
        assert((1286330022int * 1286330022int) % 2013265921int == 1421947380int) by (nonlinear_arith);
    } else if b == 18 {
        assert(two_adic_gen(18) == 1559589183);
        assert(two_adic_gen(17) == 1286330022);
        assert((1559589183int * 1559589183int) % 2013265921int == 1286330022int) by (nonlinear_arith);
    } else if b == 19 {
        assert(two_adic_gen(19) == 1049899240);
        assert(two_adic_gen(18) == 1559589183);
        assert((1049899240int * 1049899240int) % 2013265921int == 1559589183int) by (nonlinear_arith);
    } else if b == 20 {
        assert(two_adic_gen(20) == 195061667);
        assert(two_adic_gen(19) == 1049899240);
        assert((195061667int * 195061667int) % 2013265921int == 1049899240int) by (nonlinear_arith);
    } else if b == 21 {
        assert(two_adic_gen(21) == 414040701);
        assert(two_adic_gen(20) == 195061667);
        assert((414040701int * 414040701int) % 2013265921int == 195061667int) by (nonlinear_arith);
    } else if b == 22 {
        assert(two_adic_gen(22) == 570250684);
        assert(two_adic_gen(21) == 414040701);
        assert((570250684int * 570250684int) % 2013265921int == 414040701int) by (nonlinear_arith);
    } else if b == 23 {
        assert(two_adic_gen(23) == 1267047229);
        assert(two_adic_gen(22) == 570250684);
        assert((1267047229int * 1267047229int) % 2013265921int == 570250684int) by (nonlinear_arith);
    } else if b == 24 {
        assert(two_adic_gen(24) == 1003846038);
        assert(two_adic_gen(23) == 1267047229);
        assert((1003846038int * 1003846038int) % 2013265921int == 1267047229int) by (nonlinear_arith);
    } else if b == 25 {
        assert(two_adic_gen(25) == 1149491290);
        assert(two_adic_gen(24) == 1003846038);
        assert((1149491290int * 1149491290int) % 2013265921int == 1003846038int) by (nonlinear_arith);
    } else if b == 26 {
        assert(two_adic_gen(26) == 975630072);
        assert(two_adic_gen(25) == 1149491290);
        assert((975630072int * 975630072int) % 2013265921int == 1149491290int) by (nonlinear_arith);
    } else if b == 27 {
        assert(two_adic_gen(27) == 440564289);
        assert(two_adic_gen(26) == 975630072);
        assert((440564289int * 440564289int) % 2013265921int == 975630072int) by (nonlinear_arith);
    }
    assert(two_adic_gen(1) == 2013265920);
    assert(two_adic_gen(0) == 1);
}


// ---------------------------------------------------------------------------------------------
// Algebra of the field operations
pub proof fn lemma_fmul_comm(a: int, b: int)
    ensures
        fmul(a, b) == fmul(b, a),
{
    lemma_mul_is_commutative(a, b);
}

pub proof fn lemma_fmul_assoc(a: int, b: int, c: int)
    ensures
        fmul(fmul(a, b), c) == fmul(a, fmul(b, c)),
{
    lemma_mul_mod_noop_left(a * b, c, p());
    lemma_mul_mod_noop_right(a, b * c, p());
    lemma_mul_is_associative(a, b, c);
}

/// The field product depends only on the classes of its factors.
pub proof fn lemma_fmul_eqm(a: int, b: int, c: int, d: int)
    requires
        eqm(a, c),
        eqm(b, d),
    ensures
        fmul(a, b) == fmul(c, d),
{
    lemma_eqm_mul(a, b, c, d);
}

/// `a^n` depends only on the class of `a`.
pub proof fn lemma_fpow_eqm(a: int, b: int, n: nat)
    requires
        eqm(a, b),
    ensures
        fpow(a, n) == fpow(b, n),
    decreases n,
{
    if n > 0 {
        lemma_fpow_eqm(a, b, (n - 1) as nat);
        lemma_fmul_eqm(fpow(a, (n - 1) as nat), a, fpow(b, (n - 1) as nat), b);
    }
}

/// `a^(m + n) = a^m a^n`.
pub proof fn lemma_fpow_add(a: int, m: nat, n: nat)
    ensures
        fpow(a, m + n) == fmul(fpow(a, m), fpow(a, n)),
    decreases n,
{
    lemma_fpow_range(a, m);
    if n == 0 {
        assert(m + 0 == m);
        lemma_canon_mod(fpow(a, m));
        lemma_mul_basics(fpow(a, m));
    } else {
        let n1 = (n - 1) as nat;
        lemma_fpow_add(a, m, n1);
        assert((m + n1) as nat == (m + n - 1) as nat);
        // a^(m+n) = a^(m+n-1) a = (a^m a^(n-1)) a = a^m (a^(n-1) a)
        lemma_fmul_assoc(fpow(a, m), fpow(a, n1), a);
    }
}

/// `a^(m n) = (a^m)^n`.
pub proof fn lemma_fpow_mul(a: int, m: nat, n: nat)
    ensures
        fpow(a, m * n) == fpow(fpow(a, m), n),
    decreases n,
{
    if n == 0 {
        assert(m * 0 == 0) by (nonlinear_arith);
    } else {
        let n1 = (n - 1) as nat;
        lemma_fpow_mul(a, m, n1);
        assert(m * n == m * n1 + m) by (nonlinear_arith)
            requires
                n1 == n - 1,
        ;
        lemma_fpow_add(a, m * n1, m);
    }
}

/// `(a b)^n = a^n b^n`.
pub proof fn lemma_fpow_mul_base(a: int, b: int, n: nat)
    ensures
        fpow(fmul(a, b), n) == fmul(fpow(a, n), fpow(b, n)),
    decreases n,
{
    if n == 0 {
        assert(fmul(1, 1) == 1);
    } else {
        let n1 = (n - 1) as nat;
        lemma_fpow_mul_base(a, b, n1);
        let x = fpow(a, n1);
        let y = fpow(b, n1);
        // (x y) (a b) = (x a) (y b)
        lemma_fmul_assoc(fmul(x, y), a, b);
        lemma_fmul_assoc(x, y, a);
        lemma_fmul_comm(y, a);
        lemma_fmul_assoc(x, a, y);
        lemma_fmul_assoc(fmul(x, a), y, b);
        // fmul(fmul(x, y), fmul(a, b)) = fmul(fmul(fmul(x, y), a), b)
        lemma_fmul_assoc(fmul(x, y), a, b);
    }
}

/// `1^n = 1`.
pub proof fn lemma_fpow_one(n: nat)
    ensures
        fpow(1, n) == 1,
    decreases n,
{
    if n > 0 {
        lemma_fpow_one((n - 1) as nat);
    }
}

/// If `a b = 1` then `a^n b^n = 1`.
pub proof fn lemma_fpow_inverse(a: int, b: int, n: nat)
    requires
        fmul(a, b) == 1,
    ensures
        fmul(fpow(a, n), fpow(b, n)) == 1,
{
    lemma_fpow_mul_base(a, b, n);
    lemma_fpow_one(n);
}

/// The generator of order `2^b` raised to `2^b` is one.
pub proof fn lemma_two_adic_gen_order(b: nat)
    requires
        b <= 27,
    ensures
        fpow(two_adic_gen(b), crate::bits::exp2(b)) == 1,
    decreases b,
{
    lemma_two_adic_gen(b);
    if b == 0 {
        assert(crate::bits::exp2(0) == 1);
        assert(fpow(1, 1) == fmul(fpow(1, 0), 1));
    } else {
        let b1 = (b - 1) as nat;
        lemma_two_adic_gen_order(b1);
        let g = two_adic_gen(b);
        assert(crate::bits::exp2(b) == 2 * crate::bits::exp2(b1));
        lemma_fpow_mul(g, 2, crate::bits::exp2(b1));
        assert(fpow(g, 0) == 1);
        assert(fpow(g, 1) == fmul(fpow(g, 0), g));
        assert(fpow(g, 2) == fmul(fpow(g, 1), g));
        lemma_fmul_one_left(g);
    }
}

/// The generators are invertible: `g^(2^b - 1)` is an inverse.
pub proof fn lemma_two_adic_gen_inv(b: nat)
    requires
        b <= 27,
    ensures
        fmul(two_adic_gen(b), finv(two_adic_gen(b))) == 1,
        canon(finv(two_adic_gen(b))),
{
    let g = two_adic_gen(b);
    let n = crate::bits::exp2(b);
    crate::bits::lemma_exp2_pos(b);
    lemma_two_adic_gen_order(b);
    let w = fpow(g, (n - 1) as nat);
    lemma_fpow_range(g, (n - 1) as nat);
    assert(fpow(g, n) == fmul(w, g));
    lemma_fmul_comm(w, g);
    lemma_finv_unique(g, w);
}

/// `finv(a)^n` is the inverse of `a^n`.
pub proof fn lemma_finv_fpow(a: int, n: nat)
    requires
        fmul(a, finv(a)) == 1,
        canon(finv(a)),
    ensures
        finv(fpow(a, n)) == fpow(finv(a), n),
        fmul(fpow(a, n), finv(fpow(a, n))) == 1,
        canon(finv(fpow(a, n))),
{
    lemma_fpow_inverse(a, finv(a), n);
    lemma_fpow_range(finv(a), n);
    lemma_finv_unique(fpow(a, n), fpow(finv(a), n));
}


/// Raising the generator of order `2^b` to `2^j` gives the generator of order `2^(b - j)`.
pub proof fn lemma_two_adic_gen_pow2(b: nat, j: nat)
    requires
        j <= b <= 27,
    ensures
        fpow(two_adic_gen(b), crate::bits::exp2(j)) == two_adic_gen((b - j) as nat),
    decreases j,
{
    lemma_two_adic_gen(b);
    if j == 0 {
        assert(crate::bits::exp2(0) == 1);
        assert(fpow(two_adic_gen(b), 0) == 1);
        assert(fpow(two_adic_gen(b), 1) == fmul(fpow(two_adic_gen(b), 0), two_adic_gen(b)));
        lemma_fmul_one_left(two_adic_gen(b));
    } else {
        let j1 = (j - 1) as nat;
        lemma_two_adic_gen_pow2(b, j1);
        let g = two_adic_gen(b);
        let c = two_adic_gen((b - j1) as nat);
        lemma_two_adic_gen((b - j1) as nat);
        assert(crate::bits::exp2(j) == crate::bits::exp2(j1) * 2);
        lemma_fpow_mul(g, crate::bits::exp2(j1), 2);
        assert(fpow(c, 0) == 1);
        assert(fpow(c, 1) == fmul(fpow(c, 0), c));
        lemma_fmul_one_left(c);
        assert(fpow(c, 2) == fmul(fpow(c, 1), c));
        assert(((b - j1) as nat - 1) as nat == (b - j) as nat);
    }
}

/// The inverse of the generator of order `2^b`, squared, is the inverse of the generator of
/// order `2^(b - 1)`; raised to `2^j`, the inverse of the generator of order `2^(b - j)`.
pub proof fn lemma_two_adic_gen_inv_pow2(b: nat, j: nat)
    requires
        j <= b <= 27,
    ensures
        fpow(finv(two_adic_gen(b)), crate::bits::exp2(j)) == finv(two_adic_gen((b - j) as nat)),
        canon(finv(two_adic_gen((b - j) as nat))),
{
    lemma_two_adic_gen_inv(b);
    lemma_finv_fpow(two_adic_gen(b), crate::bits::exp2(j));
    lemma_two_adic_gen_pow2(b, j);
    lemma_two_adic_gen_inv((b - j) as nat);
}

/// `a^2 = a a` for canonical `a`.
pub proof fn lemma_fpow_two(a: int)
    requires
        canon(a),
    ensures
        fpow(a, 2) == fmul(a, a),
{
    assert(fpow(a, 0) == 1);
    assert(fpow(a, 1) == fmul(fpow(a, 0), a));
    lemma_fmul_one_left(a);
    assert(fpow(a, 2) == fmul(fpow(a, 1), a));
}

/// `2^m` as a field element, for `2^m < p`.
pub proof fn lemma_fpow_two_exp2(m: nat)
    requires
        m <= 27,
    ensures
        fpow(2, m) == crate::bits::exp2(m),
        canon(crate::bits::exp2(m) as int),
    decreases m,
{
    crate::bits::lemma_exp2_mono(m, 27);
    crate::bits::lemma_exp2_values();
    crate::bits::lemma_exp2_pos(m);
    if m > 0 {
        lemma_fpow_two_exp2((m - 1) as nat);
        crate::bits::lemma_exp2_mono((m - 1) as nat, 27);
        lemma_canon_mod((2 * crate::bits::exp2((m - 1) as nat)) as int);
        lemma_mul_is_commutative(2, crate::bits::exp2((m - 1) as nat) as int);
    }
}

/// The inverse of `2^m` is `(1/2)^m`.
pub proof fn lemma_finv_exp2(m: nat)
    requires
        m <= 27,
    ensures
        finv(crate::bits::exp2(m) as int) == fpow(finv(2), m),
        canon(finv(crate::bits::exp2(m) as int)),
{
    assert(fmul(2, 1006632961) == 1);
    lemma_finv_unique(2, 1006632961);
    lemma_finv_fpow(2, m);
    lemma_fpow_two_exp2(m);
}

} // verus!
