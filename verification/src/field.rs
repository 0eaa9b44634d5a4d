//! The prime field the witness values live in.
//!
//! Elements are residues modulo `P` (a Mersenne prime that fits in `u64`),
//! held as a single machine word. The spec-level model of an element is the
//! integer it holds; the operations are specified as integer arithmetic
//! modulo `P`.

use vstd::prelude::*;

verus! {

/// The field modulus: the Mersenne prime 2^61 - 1.
pub const P: u64 = 2305843009213693951;

/// Addition modulo `P` on the mathematical model.
pub open spec fn fadd(a: int, b: int) -> int {
    (a + b) % (P as int)
}

/// Subtraction modulo `P` on the mathematical model.
pub open spec fn fsub(a: int, b: int) -> int {
    (a - b) % (P as int)
}

/// Multiplication modulo `P` on the mathematical model.
pub open spec fn fmul(a: int, b: int) -> int {
    (a * b) % (P as int)
}

/// Additive inverse modulo `P` on the mathematical model.
pub open spec fn fneg(a: int) -> int {
    (0 - a) % (P as int)
}

/// A field element: a residue in `[0, P)`.
#[derive(Clone, Copy, Debug, PartialEq, Eq, Structural)]
pub struct Fp {
    v: u64,
}

impl Fp {
    /// The mathematical model of this element.
    pub closed spec fn view(&self) -> int {
        self.v as int
    }

    /// The element is a reduced residue.
    pub closed spec fn wf(&self) -> bool {
        self.v < P
    }

    /// The additive identity.
    pub fn zero() -> (r: Fp)
        ensures
            r@ == 0,
            r.wf(),
    {
        Fp { v: 0 }
    }

    /// The multiplicative identity.
    pub fn one() -> (r: Fp)
        ensures
            r@ == 1,
            r.wf(),
    {
        Fp { v: 1 }
    }

    /// The residue of an arbitrary machine integer.
    pub fn from_u64(v: u64) -> (r: Fp)
        ensures
            r@ == v as int % P as int,
            r.wf(),
    {
        Fp { v: v % P }
    }

    /// The raw residue.
    pub fn raw_u64(&self) -> (r: u64)
        ensures
            r as int == self@,
    {
        self.v
    }

    /// Field addition.
    pub fn add(self, other: Fp) -> (r: Fp)
        requires
            self.wf(),
            other.wf(),
        ensures
            r.wf(),
            r@ == fadd(self@, other@),
    {
        let s: u64 = self.v + other.v;
        let r = if s >= P {
            Fp { v: s - P }
        } else {
            Fp { v: s }
        };
        proof {
            lemma_mod_in_range(self@ + other@, r@);
        }
        r
    }

    /// Field subtraction.
    pub fn sub(self, other: Fp) -> (r: Fp)
        requires
            self.wf(),
            other.wf(),
        ensures
            r.wf(),
            r@ == fsub(self@, other@),
    {
        let r = if self.v >= other.v {
            Fp { v: self.v - other.v }
        } else {
            Fp { v: self.v + P - other.v }
        };
        proof {
            lemma_mod_in_range(self@ - other@, r@);
        }
        r
    }

    /// Field multiplication.
    pub fn mul(self, other: Fp) -> (r: Fp)
        requires
            self.wf(),
            other.wf(),
        ensures
            r.wf(),
            r@ == fmul(self@, other@),
    {
        proof {
            assert((self.v as int) * (other.v as int) < 5316911983139663487003542222693990401int)
                by (nonlinear_arith)
                requires self.v < P, other.v < P;
        }
        let p: u128 = (self.v as u128) * (other.v as u128);
        let m: u128 = p % (P as u128);
        Fp { v: m as u64 }
    }

    /// Field negation.
    pub fn neg(self) -> (r: Fp)
        requires
            self.wf(),
        ensures
            r.wf(),
            r@ == fneg(self@),
    {
        let r = if self.v == 0 {
            Fp { v: 0 }
        } else {
            Fp { v: P - self.v }
        };
        proof {
            lemma_mod_in_range(0 - self@, r@);
        }
        r
    }

    /// Whether this element is a reduced residue.
    pub fn is_reduced(&self) -> (r: bool)
        ensures
            r == self.wf(),
    {
        self.v < P
    }

    /// Whether this element is the additive identity.
    pub fn is_zero(&self) -> (r: bool)
        ensures
            r == (self@ == 0),
    {
        self.v == 0
    }

    /// Modular exponentiation by repeated squaring.
    pub fn pow_u64(self, e: u64) -> (r: Fp)
        requires
            self.wf(),
        ensures
            r.wf(),
            r@ == fpow(self@, e as nat),
    {
        let mut result = Fp::one();
        let mut base = self;
        let mut exp: u64 = e;
        proof {
            lemma_fpow_range(self@, e as nat);
            if e == 0 {
            } else {
                lemma_fmul_one(fpow(self@, e as nat));
            }
        }
        while exp > 0
            invariant
                result.wf(),
                base.wf(),
                fmul(result@, fpow(base@, exp as nat)) == fpow(self@, e as nat),
            decreases exp,
        {
            let ghost r0 = result@;
            let ghost b0 = base@;
            let ghost e0 = exp as nat;
            if exp % 2 == 1 {
                result = result.mul(base);
            }
            base = base.mul(base);
            exp = exp / 2;
            proof {
                lemma_fpow_square(b0, exp as nat);
                if e0 % 2 == 1 {
                    assert(2 * (exp as nat) == (e0 - 1) as nat);
                    assert(fpow(b0, e0) == fmul(b0, fpow(b0, (e0 - 1) as nat)));
                    lemma_fmul_assoc(r0, b0, fpow(b0, (e0 - 1) as nat));
                    lemma_fmul_comm(r0, b0);
                    assert(fmul(result@, fpow(base@, exp as nat))
                        == fmul(fmul(r0, b0), fpow(b0, (e0 - 1) as nat)));
                } else {
                    assert(2 * (exp as nat) == e0);
                }
            }
        }
        proof {
            lemma_fmul_one(result@);
        }
        result
    }
}

/// Exponentiation modulo `P` on the mathematical model.
pub open spec fn fpow(a: int, e: nat) -> int
    decreases e,
{
    if e == 0 {
        1
    } else {
        fmul(a, fpow(a, (e - 1) as nat))
    }
}

/// Modular reduction keeps values in `[0, P)`.
pub proof fn lemma_f_range(a: int)
    ensures
        0 <= a % (P as int) < P as int,
{
}

/// A reduced residue is unchanged by reduction.
pub proof fn lemma_f_reduced(a: int)
    requires
        0 <= a < P as int,
    ensures
        a % (P as int) == a,
{
    vstd::arithmetic::div_mod::lemma_small_mod(a as nat, P as nat);
}

/// The left addend may be reduced first.
proof fn lemma_fadd_reduce_left(x: int, y: int)
    ensures
        ((x % (P as int)) + y) % (P as int) == (x + y) % (P as int),
{
    let p = P as int;
    vstd::arithmetic::div_mod::lemma_add_mod_noop(x, y, p);
    vstd::arithmetic::div_mod::lemma_add_mod_noop_right(x % p, y, p);
}

/// Addition commutes.
pub proof fn lemma_fadd_comm(a: int, b: int)
    ensures
        fadd(a, b) == fadd(b, a),
{
}

/// Addition is associative.
pub proof fn lemma_fadd_assoc(a: int, b: int, c: int)
    ensures
        fadd(fadd(a, b), c) == fadd(a, fadd(b, c)),
{
    let p = P as int;
    lemma_fadd_reduce_left(a + b, c);
    vstd::arithmetic::div_mod::lemma_add_mod_noop_right(a, b + c, p);
}

/// Zero is the additive identity on reduced residues.
pub proof fn lemma_fadd_zero(a: int)
    requires
        0 <= a < P as int,
    ensures
        fadd(a, 0) == a,
        fadd(0, a) == a,
{
    lemma_f_reduced(a);
}

/// Multiplication commutes.
pub proof fn lemma_fmul_comm(a: int, b: int)
    ensures
        fmul(a, b) == fmul(b, a),
{
    vstd::arithmetic::mul::lemma_mul_is_commutative(a, b);
}

/// Multiplication is associative.
pub proof fn lemma_fmul_assoc(a: int, b: int, c: int)
    ensures
        fmul(fmul(a, b), c) == fmul(a, fmul(b, c)),
{
    let p = P as int;
    vstd::arithmetic::div_mod::lemma_mul_mod_noop_left(a * b, c, p);
    vstd::arithmetic::div_mod::lemma_mul_mod_noop_right(a, b * c, p);
    vstd::arithmetic::mul::lemma_mul_is_associative(a, b, c);
}

/// One is the multiplicative identity on reduced residues.
pub proof fn lemma_fmul_one(a: int)
    requires
        0 <= a < P as int,
    ensures
        fmul(a, 1) == a,
        fmul(1, a) == a,
{
    lemma_f_reduced(a);
}

/// Zero annihilates products.
pub proof fn lemma_fmul_zero(a: int)
    ensures
        fmul(a, 0) == 0,
        fmul(0, a) == 0,
{
}

/// Multiplication distributes over addition.
pub proof fn lemma_fmul_distrib(a: int, b: int, c: int)
    ensures
        fmul(a, fadd(b, c)) == fadd(fmul(a, b), fmul(a, c)),
{
    let p = P as int;
    vstd::arithmetic::div_mod::lemma_mul_mod_noop_right(a, b + c, p);
    vstd::arithmetic::mul::lemma_mul_is_distributive_add(a, b, c);
    vstd::arithmetic::div_mod::lemma_add_mod_noop(a * b, a * c, p);
}

/// Multiplication distributes over addition on the right.
pub proof fn lemma_fmul_distrib_right(a: int, b: int, c: int)
    ensures
        fmul(fadd(a, b), c) == fadd(fmul(a, c), fmul(b, c)),
{
    lemma_fmul_comm(fadd(a, b), c);
    lemma_fmul_distrib(c, a, b);
    lemma_fmul_comm(c, a);
    lemma_fmul_comm(c, b);
}

/// Four summands may be regrouped pairwise.
pub proof fn lemma_fadd_rearrange(a: int, b: int, c: int, d: int)
    ensures
        fadd(fadd(a, b), fadd(c, d)) == fadd(fadd(a, c), fadd(b, d)),
{
    let p = P as int;
    lemma_fadd_reduce_left(a + b, fadd(c, d));
    vstd::arithmetic::div_mod::lemma_add_mod_noop_right(a + b, c + d, p);
    lemma_fadd_reduce_left(a + c, fadd(b, d));
    vstd::arithmetic::div_mod::lemma_add_mod_noop_right(a + c, b + d, p);
}

/// Nested field sums of three atoms flatten to one reduction.
pub proof fn lemma_fadd3_flat(a: int, b: int, c: int)
    ensures
        fadd(a, fadd(b, c)) == (a + b + c) % (P as int),
        fadd(fadd(a, b), c) == (a + b + c) % (P as int),
{
    let p = P as int;
    vstd::arithmetic::div_mod::lemma_add_mod_noop_right(a, b + c, p);
    lemma_fadd_reduce_left(a + b, c);
}

/// One summand of a three-atom sum may be reduced first.
pub proof fn lemma_fadd_noop3(a: int, b: int, c: int)
    ensures
        (a % (P as int) + b + c) % (P as int) == (a + b + c) % (P as int),
        (a + b % (P as int) + c) % (P as int) == (a + b + c) % (P as int),
        (a + b + c % (P as int)) % (P as int) == (a + b + c) % (P as int),
{
    let p = P as int;
    lemma_fadd_reduce_left(a, b + c);
    lemma_fadd_reduce_left(b, a + c);
    vstd::arithmetic::div_mod::lemma_add_mod_noop_right(a + b, c, p);
}

/// Congruent summands may be exchanged under one reduction.
pub proof fn lemma_mod_subst_add(x: int, y: int, s: int)
    requires
        x % (P as int) == y % (P as int),
    ensures
        (x + s) % (P as int) == (y + s) % (P as int),
{
    lemma_fadd_reduce_left(x, s);
    lemma_fadd_reduce_left(y, s);
}

/// Negation distributes over addition.
pub proof fn lemma_fneg_fadd(a: int, b: int)
    ensures
        fneg(fadd(a, b)) == fadd(fneg(a), fneg(b)),
{
    let p = P as int;
    vstd::arithmetic::div_mod::lemma_sub_mod_noop_right(0, a + b, p);
    vstd::arithmetic::div_mod::lemma_add_mod_noop(0 - a, 0 - b, p);
}

/// Negation may be pulled out of a product.
pub proof fn lemma_fneg_fmul_left(a: int, b: int)
    ensures
        fmul(fneg(a), b) == fneg(fmul(a, b)),
{
    let p = P as int;
    vstd::arithmetic::div_mod::lemma_mul_mod_noop_left(0 - a, b, p);
    vstd::arithmetic::div_mod::lemma_sub_mod_noop_right(0, a * b, p);
    assert((0 - a) * b == 0 - a * b) by (nonlinear_arith);
}

/// Subtraction is addition of the negation.
pub proof fn lemma_fsub_is_fadd_fneg(a: int, b: int)
    ensures
        fsub(a, b) == fadd(a, fneg(b)),
{
    let p = P as int;
    vstd::arithmetic::div_mod::lemma_add_mod_noop_right(a, 0 - b, p);
}

/// On reduced residues, subtraction vanishes exactly on equal arguments.
pub proof fn lemma_fsub_zero_iff_eq(a: int, b: int)
    requires
        0 <= a < P as int,
        0 <= b < P as int,
    ensures
        (fsub(a, b) == 0) <==> (a == b),
{
    let p = P as int;
    if a == b {
        assert(fsub(a, b) == 0);
    }
    if fsub(a, b) == 0 {
        vstd::arithmetic::div_mod::lemma_fundamental_div_mod(a - b, p);
        let q = (a - b) / p;
        assert(a - b == q * p);
        assert(-p < a - b < p);
        if q >= 1 {
            assert(q * p >= 1 * p) by (nonlinear_arith)
                requires q >= 1, p > 0;
            assert(false);
        }
        if q <= -1 {
            assert(q * p <= (-1) * p) by (nonlinear_arith)
                requires q <= -1, p > 0;
            assert(false);
        }
        assert(q == 0);
    }
}

/// On reduced residues, a sum is zero exactly when one addend negates the other.
pub proof fn lemma_fadd_zero_iff_fneg(a: int, b: int)
    requires
        0 <= a < P as int,
        0 <= b < P as int,
    ensures
        (fadd(a, b) == 0) <==> (a == fneg(b)),
{
    let p = P as int;
    lemma_f_range(0 - b);
    if a == fneg(b) {
        lemma_fadd_reduce_left(0 - b, b);
        assert(fadd(fneg(b), b) == (0 - b + b) % p);
        assert(fadd(a, b) == 0);
    }
    if fadd(a, b) == 0 {
        lemma_fsub_is_fadd_fneg(a, fneg(b));
        vstd::arithmetic::div_mod::lemma_sub_mod_noop_right(a, 0 - b, p);
        assert(fsub(a, fneg(b)) == (a - (0 - b)) % p);
        assert((a + b) % p == 0);
        assert(fsub(a, fneg(b)) == 0);
        lemma_fsub_zero_iff_eq(a, fneg(b));
    }
}

/// Powers stay reduced past the zeroth.
pub proof fn lemma_fpow_range(a: int, e: nat)
    ensures
        0 <= fpow(a, e),
        e > 0 ==> fpow(a, e) < P as int,
        fpow(a, e) <= P as int - 1 || fpow(a, e) == 1,
    decreases e,
{
    if e > 0 {
        lemma_f_range(a * fpow(a, (e - 1) as nat));
    }
}

/// Splitting an exponent splits the power into a product.
pub proof fn lemma_fpow_add(a: int, m: nat, n: nat)
    ensures
        fpow(a, m + n) == fmul(fpow(a, m), fpow(a, n)),
    decreases m,
{
    if m == 0 {
        lemma_fpow_range(a, n);
        if fpow(a, n) == P as int {
            assert(false);
        }
        lemma_fmul_one(fpow(a, n));
    } else {
        lemma_fpow_add(a, (m - 1) as nat, n);
        assert(fpow(a, m + n) == fmul(a, fpow(a, ((m + n) - 1) as nat)));
        assert(((m + n) - 1) as nat == (m - 1) as nat + n);
        lemma_fmul_assoc(a, fpow(a, (m - 1) as nat), fpow(a, n));
    }
}

/// Squaring the base halves the exponent.
pub proof fn lemma_fpow_square(a: int, e: nat)
    ensures
        fpow(fmul(a, a), e) == fpow(a, 2 * e),
    decreases e,
{
    if e > 0 {
        lemma_fpow_square(a, (e - 1) as nat);
        let x = fpow(a, (2 * e - 2) as nat);
        assert(2 * (e - 1) as nat == (2 * e - 2) as nat);
        assert(fpow(fmul(a, a), e) == fmul(fmul(a, a), x));
        assert(fpow(a, 2 * e) == fmul(a, fpow(a, (2 * e - 1) as nat)));
        assert(fpow(a, (2 * e - 1) as nat) == fmul(a, x));
        lemma_fmul_assoc(a, a, x);
    }
}

/// The model of a field element determines it, is non-negative, and is
/// below `P` exactly on well-formed elements.
pub proof fn lemma_fp_props(x: Fp)
    ensures
        0 <= x@,
        x.wf() <==> x@ < P as int,
{
}

/// Two field elements with one model are one element.
pub proof fn lemma_fp_injective(x: Fp, y: Fp)
    requires
        x@ == y@,
    ensures
        x == y,
{
}

/// A value congruent to `x` modulo `P` that already lies in `[0, P)`
/// is exactly `x % P`.
proof fn lemma_mod_in_range(x: int, r: int)
    requires
        0 <= r < P as int,
        (x - r) % (P as int) == 0,
    ensures
        x % (P as int) == r,
{
    let p = P as int;
    let k = (x - r) / p;
    vstd::arithmetic::div_mod::lemma_fundamental_div_mod(x - r, p);
    assert(x == k * p + r);
    vstd::arithmetic::div_mod::lemma_fundamental_div_mod_converse_mod(x, p, k, r);
}

} // verus!
