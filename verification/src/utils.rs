//! Reusable circuit-building routines on top of the store: committed
//! exponentiation, bit enforcement, and an is-zero gadget.

use vstd::prelude::*;
use crate::field::{Fp, P, fsub, fmul, fpow};
use crate::cs::{CSWire, Lin, Mode, lemma_lin_valid_prefix};
use crate::expr::Expr;

verus! {

/// How many wires square-and-multiply exponentiation commits for a given
/// exponent: one per squaring, one more per set bit.
pub open spec fn pow_wires(e: nat) -> nat
    decreases e,
{
    if e == 0 {
        0
    } else {
        (if e % 2 == 1 {
            1nat
        } else {
            0nat
        }) + 1 + pow_wires(e / 2)
    }
}

/// Raise a committed wire to a fixed power by square-and-multiply,
/// committing every squaring and every conditional multiply through
/// `wire`. The result carries the current one wire as its initial factor,
/// so its value is `one * base^exp`.
pub fn pow(cs: &mut CSWire, base: Lin, exp: u64) -> (r: Lin)
    requires
        old(cs).wf(),
        base.wf(),
        base.valid_for(old(cs).wit()),
    ensures
        final(cs).wf(),
        final(cs).one_idx == old(cs).one_idx,
        final(cs).mode == old(cs).mode,
        final(cs).holds() <==> old(cs).holds(),
        old(cs).wit().len() <= final(cs).wit().len(),
        forall|i: int| 0 <= i < old(cs).wit().len() ==> final(cs).wit()[i] == old(cs).wit()[i],
        r.wf(),
        r.valid_for(final(cs).wit()),
        r.val@ == fmul(old(cs).one_val(), fpow(base.val@, exp as nat)),
        final(cs).witness@.len() == old(cs).witness@.len() + pow_wires(exp as nat),
        old(cs).mode == Mode::Compile ==> final(cs).exprs@.len() == old(cs).exprs@.len()
            + pow_wires(exp as nat),
        forall|i: int|
            0 <= i < old(cs).exprs@.len() ==> #[trigger] final(cs).exprs@[i] == old(
                cs,
            ).exprs@[i],
        old(cs).mode != Mode::Compile ==> final(cs).exprs == old(cs).exprs,
{
    let ghost pre = *cs;
    let ghost one0 = pre.one_val();
    let mut result = cs.one();
    let mut b = base;
    let mut e: u64 = exp;
    proof {
        crate::field::lemma_fpow_range(base.val@, exp as nat);
    }
    while e > 0
        invariant
            cs.wf(),
            result.wf(),
            b.wf(),
            result.valid_for(cs.wit()),
            b.valid_for(cs.wit()),
            cs.one_idx == pre.one_idx,
            cs.mode == pre.mode,
            cs.holds() <==> pre.holds(),
            pre.wit().len() <= cs.wit().len(),
            forall|i: int| 0 <= i < pre.wit().len() ==> cs.wit()[i] == pre.wit()[i],
            fmul(result.val@, fpow(b.val@, e as nat)) == fmul(one0, fpow(base.val@, exp as nat)),
            cs.witness@.len() + pow_wires(e as nat) == pre.witness@.len() + pow_wires(
                exp as nat,
            ),
            pre.mode == Mode::Compile ==> cs.exprs@.len() + pow_wires(e as nat)
                == pre.exprs@.len() + pow_wires(exp as nat),
            forall|i: int|
                0 <= i < pre.exprs@.len() ==> #[trigger] cs.exprs@[i] == pre.exprs@[i],
            pre.mode != Mode::Compile ==> cs.exprs == pre.exprs,
        decreases e,
    {
        let ghost rv = result.val@;
        let ghost bv = b.val@;
        let ghost e0 = e as nat;
        if e % 2 == 1 {
            let q = result.mul(&b);
            proof {
                assert(q.valid_for(cs.wit()));
            }
            let ghost w_before = cs.wit();
            result = cs.wire(&q);
            proof {
                lemma_lin_valid_prefix(b, w_before, cs.wit());
            }
        }
        let q2 = b.mul(&b);
        proof {
            assert(q2.valid_for(cs.wit()));
        }
        let ghost w_before2 = cs.wit();
        b = cs.wire(&q2);
        proof {
            lemma_lin_valid_prefix(result, w_before2, cs.wit());
        }
        e = e / 2;
        proof {
            assert(pow_wires(e0) == (if e0 % 2 == 1 {
                1nat
            } else {
                0nat
            }) + 1 + pow_wires(e0 / 2));
            crate::field::lemma_fpow_square(bv, e as nat);
            if e0 % 2 == 1 {
                assert(2 * (e as nat) == (e0 - 1) as nat);
                assert(fpow(bv, e0) == fmul(bv, fpow(bv, (e0 - 1) as nat)));
                crate::field::lemma_fmul_assoc(rv, bv, fpow(bv, (e0 - 1) as nat));
                assert(fmul(result.val@, fpow(b.val@, e as nat)) == fmul(
                    fmul(rv, bv),
                    fpow(bv, (e0 - 1) as nat),
                ));
            } else {
                assert(2 * (e as nat) == e0);
            }
        }
    }
    proof {
        crate::field::lemma_fp_props(result.val);
        crate::field::lemma_fmul_one(result.val@);
    }
    result
}

/// Assert that every given wire holds a boolean value by recording the
/// constraint `(one - b) * b = 0` for each. With the one wire at value
/// one, the recorded constraints hold exactly when every value is zero or
/// one.
pub fn enforce_bits(cs: &mut CSWire, bits: &Vec<Lin>)
    requires
        old(cs).wf(),
        forall|i: int|
            0 <= i < bits@.len() ==> (#[trigger] bits@[i]).wf() && bits@[i].valid_for(
                old(cs).wit(),
            ),
    ensures
        final(cs).wf(),
        final(cs).witness == old(cs).witness,
        final(cs).one_idx == old(cs).one_idx,
        final(cs).mode == old(cs).mode,
        old(cs).mode == Mode::Compile ==> (final(cs).holds() <==> old(cs).holds() && forall|
            i: int,
        |
            0 <= i < bits@.len() ==> fmul(
                fsub(old(cs).one_val(), (#[trigger] bits@[i]).val@),
                bits@[i].val@,
            ) == 0),
        old(cs).mode != Mode::Compile ==> (final(cs).holds() <==> old(cs).holds()),
        old(cs).mode == Mode::Compile ==> final(cs).exprs@.len() == old(cs).exprs@.len()
            + bits@.len(),
        forall|i: int|
            0 <= i < old(cs).exprs@.len() ==> #[trigger] final(cs).exprs@[i] == old(
                cs,
            ).exprs@[i],
        old(cs).mode != Mode::Compile ==> final(cs).exprs == old(cs).exprs,
{
    let ghost pre = *cs;
    let mut i: usize = 0;
    while i < bits.len()
        invariant
            i <= bits@.len(),
            cs.wf(),
            cs.witness == pre.witness,
            cs.one_idx == pre.one_idx,
            cs.mode == pre.mode,
            forall|t: int|
                0 <= t < bits@.len() ==> (#[trigger] bits@[t]).wf() && bits@[t].valid_for(
                    pre.wit(),
                ),
            pre.mode == Mode::Compile ==> (cs.holds() <==> pre.holds() && forall|t: int|
                0 <= t < i ==> fmul(
                    fsub(pre.one_val(), (#[trigger] bits@[t]).val@),
                    bits@[t].val@,
                ) == 0),
            pre.mode != Mode::Compile ==> (cs.holds() <==> pre.holds()),
            pre.mode == Mode::Compile ==> cs.exprs@.len() == pre.exprs@.len() + i,
            forall|t: int|
                0 <= t < pre.exprs@.len() ==> #[trigger] cs.exprs@[t] == pre.exprs@[t],
            pre.mode != Mode::Compile ==> cs.exprs == pre.exprs,
        decreases bits@.len() - i,
    {
        let o = cs.one();
        let s = o.sub(&bits[i]);
        let q = s.mul(&bits[i]);
        let z = cs.zero();
        proof {
            assert(cs.wit() == pre.wit());
            assert(s.valid_for(cs.wit()));
            assert(q.valid_for(cs.wit()));
        }
        cs.equal(&q, &z);
        i = i + 1;
    }
}

/// Build a wire holding one when `v` is zero and zero otherwise, with the
/// two constraints `v * z = one - q` and `v * q = 0` recorded.
///
/// The inverse candidate for a non-zero `v` is `v^(P-2)`; that it really
/// inverts `v` is Fermat's little theorem, which is not proved here, so
/// preservation of the recorded constraints is promised under that product
/// condition.
pub fn is_zero(cs: &mut CSWire, v: &Lin) -> (r: Lin)
    requires
        old(cs).wf(),
        v.wf(),
        v.valid_for(old(cs).wit()),
    ensures
        final(cs).wf(),
        final(cs).one_idx == old(cs).one_idx,
        final(cs).mode == old(cs).mode,
        final(cs).witness@.len() == old(cs).witness@.len() + 2,
        forall|i: int| 0 <= i < old(cs).wit().len() ==> final(cs).wit()[i] == old(cs).wit()[i],
        r.wf(),
        r.valid_for(final(cs).wit()),
        r.val@ == (if v.val@ == 0 {
            1int
        } else {
            0int
        }),
        (old(cs).holds() && old(cs).one_val() == 1 && (v.val@ == 0 || fmul(
            v.val@,
            fpow(v.val@, (P - 2) as nat),
        ) == 1)) ==> final(cs).holds(),
        old(cs).mode != Mode::Compile ==> (final(cs).holds() <==> old(cs).holds()),
        old(cs).mode == Mode::Compile ==> final(cs).exprs@.len() == old(cs).exprs@.len() + 2,
        forall|i: int|
            0 <= i < old(cs).exprs@.len() ==> #[trigger] final(cs).exprs@[i] == old(
                cs,
            ).exprs@[i],
        old(cs).mode != Mode::Compile ==> final(cs).exprs == old(cs).exprs,
        old(cs).mode == Mode::Compile ==> final(cs).exprs@[old(cs).exprs@.len() as int]
            == Expr::Sub(
            Box::new(
                Expr::Mul(
                    Box::new(v.expr),
                    Box::new(Expr::Idx((old(cs).witness@.len() + 1) as usize)),
                ),
            ),
            Box::new(
                Expr::Sub(
                    Box::new(Expr::Idx(old(cs).one_idx)),
                    Box::new(Expr::Idx(old(cs).witness@.len() as usize)),
                ),
            ),
        ),
        old(cs).mode == Mode::Compile ==> (final(cs).exprs@[old(cs).exprs@.len() + 1int]
            matches Expr::Sub(a, b) && *a == Expr::Mul(
            Box::new(v.expr),
            Box::new(Expr::Idx(old(cs).witness@.len() as usize)),
        ) && (*b matches Expr::Mul(l, c) && *l == Expr::Idx(old(cs).one_idx) && (*c matches
        Expr::Coeff(f) && f@ == 0))),
{
    let ghost pre = *cs;
    let is_z = v.val.is_zero();
    let qv = if is_z {
        Fp::one()
    } else {
        Fp::zero()
    };
    let zv = if is_z {
        Fp::zero()
    } else {
        v.val.pow_u64(P - 2)
    };
    let q = cs.allocate(qv);
    let ghost w1 = cs.wit();
    let z = cs.allocate(zv);
    proof {
        lemma_lin_valid_prefix(*v, pre.wit(), w1);
        lemma_lin_valid_prefix(*v, w1, cs.wit());
        lemma_lin_valid_prefix(q, w1, cs.wit());
    }
    let prod = v.mul(&z);
    let one_l = cs.one();
    let rhs = one_l.sub(&q);
    proof {
        assert(prod.valid_for(cs.wit()));
        assert(rhs.valid_for(cs.wit()));
    }
    cs.equal(&prod, &rhs);
    let prod2 = v.mul(&q);
    let zl = cs.zero();
    proof {
        assert(prod2.valid_for(cs.wit()));
    }
    cs.equal(&prod2, &zl);
    proof {
        if pre.holds() && pre.one_val() == 1 && (v.val@ == 0 || fmul(
            v.val@,
            fpow(v.val@, (P - 2) as nat),
        ) == 1) {
            crate::field::lemma_fmul_zero(v.val@);
            crate::field::lemma_fmul_zero(z.val@);
            crate::field::lemma_fmul_zero(pre.one_val());
            if v.val@ == 0 {
                assert(prod.val@ == fmul(0, z.val@));
                assert(rhs.val@ == fsub(1, 1));
            } else {
                assert(prod.val@ == 1);
                assert(rhs.val@ == fsub(1, 0));
                crate::field::lemma_f_reduced(1);
            }
        }
    }
    q
}

} // verus!