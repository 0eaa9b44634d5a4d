//! The constraint-system store and its authoring values.
//!
//! A `Lin` carries a concrete field value together with the degree-at-most-
//! one expression that produced it; a `Qua` the same with degree at most
//! two. `CSWire` owns the witness vector and the recorded zero-equals-
//! expression constraints, and `finish` permutes the chosen public wires to
//! the front and compiles the constraints into an `R1CS`.

use vstd::prelude::*;
use crate::field::{Fp, P, fadd, fsub, fmul, fneg};
use crate::expr::Expr;
use crate::r1cs::R1CS;
use vstd::pervasive::VecAdditionalExecFns;

verus! {

/// Whether the store records constraints (`Compile`) or only tracks
/// concrete witness values (`Run`).
#[derive(Clone, Copy, Debug, PartialEq, Eq, Structural)]
pub enum Mode {
    /// Record every constraint for later compilation.
    Compile,
    /// Track witness values only.
    Run,
}

/// Access to the concrete field value a variable carries.
pub trait ToRaw {
    /// The model of the carried value.
    spec fn raw_spec(&self) -> int;

    /// The carried concrete value.
    fn raw(&self) -> (r: Fp)
        ensures
            r@ == self.raw_spec(),
    ;
}

/// Access to the recorded expression a variable carries.
pub trait ToExpr {
    /// The model of the carried expression.
    spec fn expr_spec(&self) -> Expr;

    /// A copy of the carried expression.
    fn expr(&self) -> (r: Expr)
        ensures
            r == self.expr_spec(),
    ;
}

/// A linear variable: a concrete value and the expression of degree at
/// most one that produced it.
#[derive(Debug)]
pub struct Lin {
    /// The concrete value.
    pub val: Fp,
    /// The producing expression.
    pub expr: Expr,
}

/// A quadratic variable: a concrete value and the expression of degree at
/// most two that produced it.
#[derive(Debug)]
pub struct Qua {
    /// The concrete value.
    pub val: Fp,
    /// The producing expression.
    pub expr: Expr,
}

impl Lin {
    /// The variable is well formed: its expression is classifiable, of
    /// degree at most one, with reduced coefficients.
    pub open spec fn wf(&self) -> bool {
        &&& self.expr.wf()
        &&& self.expr.classifiable()
        &&& self.expr.degree() <= 1
        &&& self.val.wf()
    }

    /// The variable belongs to witness `w`: its expression evaluates there
    /// to its concrete value.
    pub open spec fn valid_for(&self, w: Seq<int>) -> bool {
        &&& self.expr.eval(w) == self.val@
        &&& self.expr.idx_bound(w.len() as int)
    }

    /// A reference to the witness slot `index` holding `value`.
    pub fn new(value: Fp, index: usize) -> (r: Lin)
        requires
            value.wf(),
        ensures
            r.val == value,
            r.expr == Expr::Idx(index),
            r.wf(),
    {
        Lin { val: value, expr: Expr::Idx(index) }
    }

    /// A constant-valued variable carrying a literal coefficient.
    pub fn coeff(value: Fp) -> (r: Lin)
        requires
            value.wf(),
        ensures
            r.val == value,
            r.expr == Expr::Coeff(value),
            r.wf(),
    {
        Lin { val: value, expr: Expr::Coeff(value) }
    }

    /// The sum of two linear variables.
    pub fn add(&self, other: &Lin) -> (r: Lin)
        requires
            self.wf(),
            other.wf(),
        ensures
            r.expr == Expr::Add(Box::new(self.expr), Box::new(other.expr)),
            r.val@ == fadd(self.val@, other.val@),
            r.wf(),
    {
        Lin {
            val: self.val.add(other.val),
            expr: Expr::Add(Box::new(self.expr.duplicate()), Box::new(other.expr.duplicate())),
        }
    }

    /// The difference of two linear variables.
    pub fn sub(&self, other: &Lin) -> (r: Lin)
        requires
            self.wf(),
            other.wf(),
        ensures
            r.expr == Expr::Sub(Box::new(self.expr), Box::new(other.expr)),
            r.val@ == fsub(self.val@, other.val@),
            r.wf(),
    {
        Lin {
            val: self.val.sub(other.val),
            expr: Expr::Sub(Box::new(self.expr.duplicate()), Box::new(other.expr.duplicate())),
        }
    }

    /// The product of two linear variables, a quadratic variable.
    pub fn mul(&self, other: &Lin) -> (r: Qua)
        requires
            self.wf(),
            other.wf(),
        ensures
            r.expr == Expr::Mul(Box::new(self.expr), Box::new(other.expr)),
            r.val@ == fmul(self.val@, other.val@),
            r.wf(),
    {
        Qua {
            val: self.val.mul(other.val),
            expr: Expr::Mul(Box::new(self.expr.duplicate()), Box::new(other.expr.duplicate())),
        }
    }

    /// The variable scaled by a field constant.
    pub fn mul_fp(&self, k: Fp) -> (r: Lin)
        requires
            self.wf(),
            k.wf(),
        ensures
            r.expr == Expr::Mul(Box::new(self.expr), Box::new(Expr::Coeff(k))),
            r.val@ == fmul(self.val@, k@),
            r.wf(),
    {
        proof {
            crate::expr::lemma_rank1_degree(self.expr);
            assert(Expr::Coeff(k).wf());
            assert(Expr::Coeff(k).rank1());
            assert(Expr::Coeff(k).degree() == 0);
        }
        Lin {
            val: self.val.mul(k),
            expr: Expr::Mul(Box::new(self.expr.duplicate()), Box::new(Expr::Coeff(k))),
        }
    }

    /// The variable scaled by a machine-integer constant.
    pub fn mul_u64(&self, k: u64) -> (r: Lin)
        requires
            self.wf(),
        ensures
            r.expr matches Expr::Mul(l, c) && *l == self.expr && (*c matches Expr::Coeff(f)
                && f@ == (k as int) % (P as int)),
            r.val@ == fmul(self.val@, (k as int) % (P as int)),
            r.wf(),
    {
        self.mul_fp(Fp::from_u64(k))
    }

    /// A structurally equal copy of this variable.
    pub fn duplicate(&self) -> (r: Lin)
        ensures
            r == *self,
    {
        Lin { val: self.val, expr: self.expr.duplicate() }
    }

    /// The same value and expression as a quadratic variable.
    pub fn to_qua(&self) -> (r: Qua)
        requires
            self.wf(),
        ensures
            r.val == self.val,
            r.expr == self.expr,
            r.wf(),
    {
        Qua { val: self.val, expr: self.expr.duplicate() }
    }
}

impl Qua {
    /// The variable is well formed: its expression is classifiable, with
    /// reduced coefficients.
    pub open spec fn wf(&self) -> bool {
        &&& self.expr.wf()
        &&& self.expr.classifiable()
        &&& self.val.wf()
    }

    /// The variable belongs to witness `w`: its expression evaluates there
    /// to its concrete value.
    pub open spec fn valid_for(&self, w: Seq<int>) -> bool {
        &&& self.expr.eval(w) == self.val@
        &&& self.expr.idx_bound(w.len() as int)
    }

    /// The sum of a quadratic and a linear variable.
    pub fn add_lin(&self, other: &Lin) -> (r: Qua)
        requires
            self.wf(),
            other.wf(),
        ensures
            r.expr == Expr::Add(Box::new(self.expr), Box::new(other.expr)),
            r.val@ == fadd(self.val@, other.val@),
            r.wf(),
    {
        Qua {
            val: self.val.add(other.val),
            expr: Expr::Add(Box::new(self.expr.duplicate()), Box::new(other.expr.duplicate())),
        }
    }

    /// The difference of a quadratic and a linear variable.
    pub fn sub_lin(&self, other: &Lin) -> (r: Qua)
        requires
            self.wf(),
            other.wf(),
        ensures
            r.expr == Expr::Sub(Box::new(self.expr), Box::new(other.expr)),
            r.val@ == fsub(self.val@, other.val@),
            r.wf(),
    {
        Qua {
            val: self.val.sub(other.val),
            expr: Expr::Sub(Box::new(self.expr.duplicate()), Box::new(other.expr.duplicate())),
        }
    }

    /// The variable scaled by a field constant.
    pub fn mul_fp(&self, k: Fp) -> (r: Qua)
        requires
            self.wf(),
            k.wf(),
        ensures
            r.expr == Expr::Mul(Box::new(self.expr), Box::new(Expr::Coeff(k))),
            r.val@ == fmul(self.val@, k@),
            r.wf(),
    {
        proof {
            crate::expr::lemma_rank1_degree(self.expr);
            assert(Expr::Coeff(k).wf());
            assert(Expr::Coeff(k).rank1());
            assert(Expr::Coeff(k).degree() == 0);
        }
        Qua {
            val: self.val.mul(k),
            expr: Expr::Mul(Box::new(self.expr.duplicate()), Box::new(Expr::Coeff(k))),
        }
    }

    /// The variable scaled by a machine-integer constant.
    pub fn mul_u64(&self, k: u64) -> (r: Qua)
        requires
            self.wf(),
        ensures
            r.expr matches Expr::Mul(l, c) && *l == self.expr && (*c matches Expr::Coeff(f)
                && f@ == (k as int) % (P as int)),
            r.val@ == fmul(self.val@, (k as int) % (P as int)),
            r.wf(),
    {
        self.mul_fp(Fp::from_u64(k))
    }
}

impl ToRaw for Lin {
    open spec fn raw_spec(&self) -> int {
        self.val@
    }

    fn raw(&self) -> (r: Fp) {
        self.val
    }
}

impl ToRaw for Qua {
    open spec fn raw_spec(&self) -> int {
        self.val@
    }

    fn raw(&self) -> (r: Fp) {
        self.val
    }
}

impl ToExpr for Lin {
    open spec fn expr_spec(&self) -> Expr {
        self.expr
    }

    fn expr(&self) -> (r: Expr) {
        self.expr.duplicate()
    }
}

impl ToExpr for Qua {
    open spec fn expr_spec(&self) -> Expr {
        self.expr
    }

    fn expr(&self) -> (r: Expr) {
        self.expr.duplicate()
    }
}

/// The constraint-system store: the witness vector, the recorded
/// zero-equals-expression constraints, and the index of the wire currently
/// treated as the constant one.
#[derive(Debug)]
pub struct CSWire {
    /// The witness values, one per allocated wire.
    pub witness: Vec<Fp>,
    /// The recorded constraints, each an expression that must equal zero.
    pub exprs: Vec<Expr>,
    /// The index of the wire currently treated as the constant one.
    pub one_idx: usize,
    /// Whether constraints are recorded.
    pub mode: Mode,
}

impl CSWire {
    /// The mathematical model of the witness vector.
    pub open spec fn wit(&self) -> Seq<int> {
        crate::r1cs::wit_view(self.witness@)
    }

    /// The store is well formed: witness values are reduced, the one wire
    /// exists, and every recorded constraint is a classifiable expression
    /// over allocated wires.
    pub open spec fn wf(&self) -> bool {
        &&& crate::r1cs::wit_wf(self.witness@)
        &&& self.one_idx < self.witness@.len()
        &&& forall|i: int|
            0 <= i < self.exprs@.len() ==> (#[trigger] self.exprs@[i]).wf()
                && self.exprs@[i].classifiable() && self.exprs@[i].idx_bound(
                self.witness@.len() as int,
            )
    }

    /// Every recorded constraint evaluates to zero under the current
    /// witness.
    pub open spec fn holds(&self) -> bool {
        forall|i: int|
            0 <= i < self.exprs@.len() ==> (#[trigger] self.exprs@[i]).eval(self.wit()) == 0
    }

    /// The value of the wire currently treated as one.
    pub open spec fn one_val(&self) -> int {
        self.wit()[self.one_idx as int]
    }

    /// A fresh store: one witness slot holding the constant one.
    pub fn new(mode: Mode) -> (r: CSWire)
        ensures
            r.wf(),
            r.holds(),
            r.witness@.len() == 1,
            r.wit() =~= seq![1int],
            r.one_idx == 0,
            r.exprs@.len() == 0,
            r.mode == mode,
    {
        let mut witness: Vec<Fp> = Vec::new();
        witness.push(Fp::one());
        let r = CSWire { witness, exprs: Vec::new(), one_idx: 0, mode };
        proof {
            assert(r.wit() =~= seq![1int]);
        }
        r
    }

    /// Append a value to the witness and hand back a reference to the new
    /// slot. Records no constraint.
    pub fn allocate(&mut self, value: Fp) -> (r: Lin)
        requires
            old(self).wf(),
            value.wf(),
        ensures
            final(self).wf(),
            final(self).witness@ == old(self).witness@.push(value),
            final(self).wit() == old(self).wit().push(value@),
            final(self).exprs == old(self).exprs,
            final(self).one_idx == old(self).one_idx,
            final(self).mode == old(self).mode,
            r.val == value,
            r.expr == Expr::Idx(old(self).witness@.len() as usize),
            r.wf(),
            r.valid_for(final(self).wit()),
            final(self).holds() <==> old(self).holds(),
            forall|l: Lin|
                l.valid_for(old(self).wit()) ==> #[trigger] l.valid_for(final(self).wit()),
            forall|q2: Qua|
                q2.valid_for(old(self).wit()) ==> #[trigger] q2.valid_for(final(self).wit()),
    {
        let idx = self.witness.len();
        self.witness.push(value);
        let r = Lin { val: value, expr: Expr::Idx(idx) };
        proof {
            self.lemma_after_push(*old(self), value);
        }
        r
    }

    /// Pushing one witness value disturbs neither well-formedness nor any
    /// recorded constraint.
    proof fn lemma_after_push(&self, pre: CSWire, value: Fp)
        requires
            pre.wf(),
            value.wf(),
            self.witness@ == pre.witness@.push(value),
            self.exprs == pre.exprs,
            self.one_idx == pre.one_idx,
        ensures
            self.wf(),
            self.wit() == pre.wit().push(value@),
            self.holds() <==> pre.holds(),
            forall|l: Lin| l.valid_for(pre.wit()) ==> #[trigger] l.valid_for(self.wit()),
            forall|q2: Qua| q2.valid_for(pre.wit()) ==> #[trigger] q2.valid_for(self.wit()),
    {
        assert(self.wit() =~= pre.wit().push(value@));
        assert forall|i: int| 0 <= i < self.exprs@.len() implies (#[trigger] self.exprs@[i]).wf()
            && self.exprs@[i].classifiable() && self.exprs@[i].idx_bound(
            self.witness@.len() as int,
        ) by {
            crate::expr::lemma_idx_bound_mono(
                self.exprs@[i],
                pre.witness@.len() as int,
                self.witness@.len() as int,
            );
        }
        assert forall|i: int| 0 <= i < self.exprs@.len() implies (#[trigger] self.exprs@[i]).eval(
            self.wit(),
        ) == (#[trigger] pre.exprs@[i]).eval(pre.wit()) by {
            crate::expr::lemma_eval_prefix(self.exprs@[i], pre.wit(), self.wit());
        }
        assert forall|l: Lin| l.valid_for(pre.wit()) implies #[trigger] l.valid_for(
            self.wit(),
        ) by {
            lemma_lin_valid_prefix(l, pre.wit(), self.wit());
        }
        assert forall|q2: Qua| q2.valid_for(pre.wit()) implies #[trigger] q2.valid_for(
            self.wit(),
        ) by {
            crate::expr::lemma_eval_prefix(q2.expr, pre.wit(), self.wit());
            crate::expr::lemma_idx_bound_mono(q2.expr, pre.wit().len() as int, self.wit().len() as int);
        }
    }

    /// Commit a computed value: allocate a fresh witness slot for it and
    /// record that the producing expression equals the new slot.
    pub fn wire(&mut self, q: &Qua) -> (r: Lin)
        requires
            old(self).wf(),
            q.wf(),
            q.valid_for(old(self).wit()),
        ensures
            final(self).wf(),
            final(self).witness@ == old(self).witness@.push(q.val),
            final(self).wit() == old(self).wit().push(q.val@),
            final(self).one_idx == old(self).one_idx,
            final(self).mode == old(self).mode,
            old(self).mode == Mode::Compile ==> final(self).exprs@ == old(self).exprs@.push(
                Expr::Sub(
                    Box::new(q.expr),
                    Box::new(Expr::Idx(old(self).witness@.len() as usize)),
                ),
            ),
            old(self).mode != Mode::Compile ==> final(self).exprs == old(self).exprs,
            r.val == q.val,
            r.expr == Expr::Idx(old(self).witness@.len() as usize),
            r.wf(),
            r.valid_for(final(self).wit()),
            final(self).holds() <==> old(self).holds(),
    {
        let ghost pre = *self;
        let idx = self.witness.len();
        self.witness.push(q.val);
        proof {
            self.lemma_after_push(pre, q.val);
        }
        let r = Lin { val: q.val, expr: Expr::Idx(idx) };
        match self.mode {
            Mode::Compile => {
                let ghost mid = *self;
                let constraint = Expr::Sub(
                    Box::new(q.expr.duplicate()),
                    Box::new(Expr::Idx(idx)),
                );
                self.exprs.push(constraint);
                proof {
                    let w = self.wit();
                    crate::expr::lemma_eval_prefix(q.expr, pre.wit(), w);
                    assert(w[idx as int] == q.val@);
                    assert(Expr::Idx(idx).eval(w) == w[idx as int]);
                    assert(constraint.eval(w) == fsub(q.val@, q.val@));
                    crate::field::lemma_fp_props(q.val);
                    crate::field::lemma_fsub_zero_iff_eq(q.val@, q.val@);
                    crate::expr::lemma_rank1_degree(q.expr);
                    assert(Expr::Idx(idx).rank1() && Expr::Idx(idx).degree() == 1);
                    crate::expr::lemma_idx_bound_mono(q.expr, pre.wit().len() as int, w.len() as int);
                    assert(Expr::Idx(idx).idx_bound(self.witness@.len() as int));
                    assert(constraint.idx_bound(self.witness@.len() as int));
                    assert(Expr::Idx(idx).wf() && Expr::Idx(idx).rank1());
                    assert(constraint.wf() && constraint.classifiable());
                    assert forall|i: int| 0 <= i < self.exprs@.len() implies (
                    #[trigger] self.exprs@[i]).wf() && self.exprs@[i].classifiable()
                        && self.exprs@[i].idx_bound(self.witness@.len() as int) by {
                        if i < mid.exprs@.len() {
                            assert(self.exprs@[i] == mid.exprs@[i]);
                            assert(mid.exprs@[i].wf() && mid.exprs@[i].classifiable()
                                && mid.exprs@[i].idx_bound(mid.witness@.len() as int));
                        } else {
                            assert(self.exprs@[i] == constraint);
                        }
                    }
                    assert(forall|i: int|
                        0 <= i < mid.exprs@.len() ==> self.exprs@[i] == #[trigger] mid.exprs@[i]);
                    assert(self.exprs@[mid.exprs@.len() as int] == constraint);
                    if pre.holds() {
                        assert(mid.holds());
                        assert forall|i: int| 0 <= i < self.exprs@.len() implies (
                        #[trigger] self.exprs@[i]).eval(w) == 0 by {
                            if i < mid.exprs@.len() {
                                assert(mid.exprs@[i].eval(w) == 0);
                            }
                        }
                    }
                    if self.holds() {
                        assert forall|i: int| 0 <= i < mid.exprs@.len() implies (
                        #[trigger] mid.exprs@[i]).eval(w) == 0 by {
                            assert(self.exprs@[i].eval(w) == 0);
                        }
                        assert(mid.holds());
                        assert(pre.holds());
                    }
                }
            }
            Mode::Run => {}
        }
        r
    }

    /// Record that a quadratic and a linear expression are equal: the
    /// constraint `lhs - rhs = 0`. Allocates nothing.
    pub fn equal(&mut self, q: &Qua, l: &Lin)
        requires
            old(self).wf(),
            q.wf(),
            q.valid_for(old(self).wit()),
            l.wf(),
            l.valid_for(old(self).wit()),
        ensures
            final(self).wf(),
            final(self).witness == old(self).witness,
            final(self).one_idx == old(self).one_idx,
            final(self).mode == old(self).mode,
            old(self).mode == Mode::Compile ==> final(self).exprs@ == old(self).exprs@.push(
                Expr::Sub(Box::new(q.expr), Box::new(l.expr)),
            ),
            old(self).mode != Mode::Compile ==> final(self).exprs == old(self).exprs,
            old(self).mode == Mode::Compile ==> (final(self).holds() <==> old(self).holds()
                && q.val@ == l.val@),
            old(self).mode != Mode::Compile ==> (final(self).holds() <==> old(self).holds()),
    {
        let ghost pre = *self;
        match self.mode {
            Mode::Compile => {
                let constraint = Expr::Sub(
                    Box::new(q.expr.duplicate()),
                    Box::new(l.expr.duplicate()),
                );
                self.exprs.push(constraint);
                proof {
                    let w = self.wit();
                    assert(constraint.eval(w) == fsub(q.val@, l.val@));
                    crate::field::lemma_fp_props(q.val);
                    crate::field::lemma_fp_props(l.val);
                    crate::field::lemma_fsub_zero_iff_eq(q.val@, l.val@);
                    crate::expr::lemma_rank1_degree(q.expr);
                    crate::expr::lemma_rank1_degree(l.expr);
                    assert(forall|i: int|
                        0 <= i < pre.exprs@.len() ==> self.exprs@[i] == #[trigger] pre.exprs@[i]);
                    assert(self.exprs@[pre.exprs@.len() as int] == constraint);
                    if self.holds() {
                        assert(constraint.eval(w) == 0);
                        assert forall|i: int| 0 <= i < pre.exprs@.len() implies (
                        #[trigger] pre.exprs@[i]).eval(w) == 0 by {
                            assert(self.exprs@[i].eval(w) == 0);
                        }
                    }
                    if pre.holds() && q.val@ == l.val@ {
                        assert forall|i: int| 0 <= i < self.exprs@.len() implies (
                        #[trigger] self.exprs@[i]).eval(w) == 0 by {
                            if i < pre.exprs@.len() {
                                assert(pre.exprs@[i].eval(w) == 0);
                            }
                        }
                    }
                }
            }
            Mode::Run => {}
        }
    }

    /// A reference to the wire currently treated as the constant one.
    pub fn one(&self) -> (r: Lin)
        requires
            self.wf(),
        ensures
            r.expr == Expr::Idx(self.one_idx),
            r.val@ == self.one_val(),
            r.wf(),
            r.valid_for(self.wit()),
    {
        Lin { val: self.witness[self.one_idx], expr: Expr::Idx(self.one_idx) }
    }

    /// The constant zero, scaled against the current one wire.
    pub fn zero(&self) -> (r: Lin)
        requires
            self.wf(),
        ensures
            r.expr matches Expr::Mul(l, c) && *l == Expr::Idx(self.one_idx) && (*c matches
                Expr::Coeff(f) && f@ == 0),
            r.val@ == 0,
            r.wf(),
            r.valid_for(self.wit()),
    {
        let r = self.constant(Fp::zero());
        proof {
            crate::field::lemma_fmul_zero(self.one_val());
        }
        r
    }

    /// The constant `value`, scaled against the current one wire, so that
    /// redefining the one wire rescales every constant with it.
    pub fn constant(&self, value: Fp) -> (r: Lin)
        requires
            self.wf(),
            value.wf(),
        ensures
            r.expr == Expr::Mul(
                Box::new(Expr::Idx(self.one_idx)),
                Box::new(Expr::Coeff(value)),
            ),
            r.val@ == fmul(self.one_val(), value@),
            r.wf(),
            r.valid_for(self.wit()),
    {
        proof {
            assert(Expr::Idx(self.one_idx).eval(self.wit()) == self.one_val());
            assert(Expr::Coeff(value).eval(self.wit()) == value@);
            assert(Expr::Idx(self.one_idx).idx_bound(self.wit().len() as int));
            assert(Expr::Coeff(value).idx_bound(self.wit().len() as int));
        }
        self.one().mul_fp(value)
    }

    /// Swap which wire is treated as the constant one; the previous one
    /// wire is returned so the caller can restore it.
    pub fn set_one(&mut self, new: &Lin) -> (r: Lin)
        requires
            old(self).wf(),
            new.wf(),
            new.valid_for(old(self).wit()),
            new.expr is Idx,
        ensures
            final(self).wf(),
            final(self).witness == old(self).witness,
            final(self).exprs == old(self).exprs,
            final(self).mode == old(self).mode,
            final(self).one_idx == new.expr->Idx_0,
            r.expr == Expr::Idx(old(self).one_idx),
            r.val@ == old(self).one_val(),
            r.wf(),
            final(self).holds() == old(self).holds(),
    {
        let old_one = self.one();
        let idx = match &new.expr {
            Expr::Idx(j) => *j,
            _ => 0,
        };
        self.one_idx = idx;
        old_one
    }
}

/// A linear variable stays valid when the witness it belongs to is
/// extended.
pub proof fn lemma_lin_valid_prefix(l: Lin, w1: Seq<int>, w2: Seq<int>)
    requires
        l.valid_for(w1),
        w1.len() <= w2.len(),
        forall|i: int| 0 <= i < w1.len() ==> w2[i] == w1[i],
    ensures
        l.valid_for(w2),
{
    crate::expr::lemma_eval_prefix(l.expr, w1, w2);
    crate::expr::lemma_idx_bound_mono(l.expr, w1.len() as int, w2.len() as int);
}

/// Swapping two entries of a sequence keeps its multiset of values.
proof fn lemma_swap_multiset(s: Seq<int>, i: int, j: int)
    requires
        0 <= i < s.len(),
        0 <= j < s.len(),
    ensures
        s.update(i, s[j]).update(j, s[i]).to_multiset() == s.to_multiset(),
{
    broadcast use vstd::seq_lib::group_to_multiset_ensures;

    let s1 = s.update(i, s[j]);
    let s2 = s1.update(j, s[i]);
    if i == j {
        assert(s2 =~= s);
    } else {
        vstd::seq_lib::to_multiset_update(s, i, s[j]);
        vstd::seq_lib::to_multiset_update(s1, j, s[i]);
        assert(s1[j] == s[j]);
        assert(s.contains(s[i]));
        assert(s.to_multiset().count(s[i]) > 0);
        assert(s2.to_multiset() =~= s.to_multiset());
    }
}

/// Indices strictly increase along the sequence.
pub open spec fn strictly_increasing(s: Seq<usize>) -> bool {
    forall|i: int, j: int| 0 <= i < j < s.len() ==> s[i] < s[j]
}

/// The concrete values carried by a sequence of quadratic variables.
pub open spec fn io_vals(io: Seq<Qua>) -> Seq<int> {
    Seq::new(io.len(), |i: int| io[i].val@)
}

/// The public prefix a finalization produced: a sorted list of the chosen
/// wire indices — the freshly wired I/O slots and the one wire — whose
/// original values appear, in that order, at the front of the returned
/// witness.
pub open spec fn public_prefix_ok(
    su: Seq<usize>,
    one: usize,
    l0: int,
    m: int,
    x: Seq<Fp>,
    full: Seq<int>,
) -> bool {
    &&& strictly_increasing(su)
    &&& forall|v: usize| #[trigger] su.contains(v) <==> (v == one || l0 <= v < l0 + m)
    &&& x.len() == su.len()
    &&& forall|i: int| 0 <= i < su.len() ==> (#[trigger] x[i])@ == full[su[i] as int]
}

/// Row `row` is the lowering of expression `e`: the expression rewritten
/// through the permutation `pm`, classified, and compiled against the
/// permuted one wire.
pub open spec fn lowered(
    pm: Seq<usize>,
    e: Expr,
    one: usize,
    row: crate::r1cs::ConstraintV,
) -> bool {
    &&& crate::term::spec_parse(e.spec_map_indices(pm)) is Ok
    &&& row == crate::r1cs::spec_compile(
        crate::term::spec_parse(e.spec_map_indices(pm))->Ok_0,
        pm[one as int] as int,
    )
}

/// The compiled system is, row for row in recording order, the lowering of
/// the recorded constraints followed by the I/O wiring constraints, through
/// one permutation relating the returned witness to the wired one; every
/// row's sides are sorted by wire index.
pub open spec fn rows_lowering_ok(
    pm: Seq<usize>,
    exprs: Seq<Expr>,
    io: Seq<Qua>,
    l0: int,
    one: usize,
    new_wit: Seq<int>,
    full: Seq<int>,
    rows: Seq<crate::r1cs::ConstraintV>,
) -> bool {
    &&& pm.len() == full.len()
    &&& new_wit.len() == full.len()
    &&& (one as int) < pm.len()
    &&& forall|v: int|
        0 <= v < pm.len() ==> (#[trigger] pm[v]) < new_wit.len() && new_wit[pm[v] as int]
            == full[v]
    &&& rows.len() == exprs.len() + io.len()
    &&& forall|k: int| 0 <= k < exprs.len() ==> lowered(pm, exprs[k], one, #[trigger] rows[k])
    &&& forall|k: int|
        0 <= k < io.len() ==> lowered(
            pm,
            Expr::Sub(Box::new(io[k].expr), Box::new(Expr::Idx((l0 + k) as usize))),
            one,
            #[trigger] rows[exprs.len() + k],
        )
    &&& forall|k: int|
        0 <= k < rows.len() ==> crate::term::lc_sorted((#[trigger] rows[k]).a)
            && crate::term::lc_sorted(rows[k].b) && crate::term::lc_sorted(rows[k].c)
}

/// Relies on itertools::Itertools::sorted_unstable: the result holds
/// exactly the input's elements, in ascending order.
#[verifier::external_body]
fn sorted_indices(v: Vec<usize>) -> (r: Vec<usize>)
    ensures
        r@.to_multiset() == v@.to_multiset(),
        forall|i: int, j: int| 0 <= i < j < r@.len() ==> r@[i] <= r@[j],
{
    itertools::Itertools::sorted_unstable(v.into_iter()).collect()
}

/// Drop repeated entries of an ascending list, leaving a strictly
/// ascending list with the same membership.
fn dedup_sorted(v: &Vec<usize>) -> (r: Vec<usize>)
    requires
        forall|i: int, j: int| 0 <= i < j < v@.len() ==> v@[i] <= v@[j],
    ensures
        strictly_increasing(r@),
        forall|x: usize| #[trigger] r@.contains(x) <==> v@.contains(x),
{
    let mut r: Vec<usize> = Vec::new();
    let mut i: usize = 0;
    while i < v.len()
        invariant
            i <= v.len(),
            forall|a: int, b: int| 0 <= a < b < v@.len() ==> v@[a] <= v@[b],
            strictly_increasing(r@),
            (r@.len() > 0) <==> (i > 0),
            i > 0 ==> r@.len() > 0 && r@[r@.len() - 1] == v@[i - 1],
            forall|t: int| 0 <= t < i ==> r@.contains(#[trigger] v@[t]),
            forall|t: int| 0 <= t < r@.len() ==> v@.contains(#[trigger] r@[t]),
        decreases v.len() - i,
    {
        let cur = v[i];
        let push_it: bool = if r.len() == 0 {
            true
        } else {
            r[r.len() - 1] < cur
        };
        if push_it {
            let ghost r0 = r@;
            r.push(cur);
            proof {
                assert(r@ == r0.push(cur));
                assert(r@[r@.len() - 1] == cur);
                assert forall|t: int| 0 <= t < i + 1 implies r@.contains(#[trigger] v@[t]) by {
                    if t < i {
                        let u = choose|u: int| 0 <= u < r0.len() && r0[u] == v@[t];
                        assert(r@[u] == v@[t]);
                    } else {
                        assert(r@[r@.len() - 1] == v@[t]);
                    }
                }
            }
        } else {
            proof {
                assert(v@[i - 1] <= v@[i as int]);
                assert(r@[r@.len() - 1] == v@[i as int]);
                assert forall|t: int| 0 <= t < i + 1 implies r@.contains(#[trigger] v@[t]) by {
                    if t < i {
                    } else {
                        assert(r@[r@.len() - 1] == v@[t]);
                    }
                }
            }
        }
        i = i + 1;
    }
    proof {
        assert forall|x: usize| #[trigger] r@.contains(x) implies v@.contains(x) by {
            let t = choose|t: int| 0 <= t < r@.len() && r@[t] == x;
        }
        assert forall|x: usize| v@.contains(x) implies r@.contains(x) by {
            let t = choose|t: int| 0 <= t < v@.len() && v@[t] == x;
            assert(r@.contains(v@[t]));
        }
    }
    r
}

/// In a strictly ascending sequence the entry at position `i` is at least
/// `i`.
proof fn lemma_strict_lower(s: Seq<usize>, i: int)
    requires
        strictly_increasing(s),
        0 <= i < s.len(),
    ensures
        s[i] >= i,
    decreases i,
{
    if i > 0 {
        lemma_strict_lower(s, i - 1);
    }
}

impl CSWire {
    /// Finalize the system: wire each I/O expression into its own fresh
    /// slot, move the chosen public wires (always including the one wire)
    /// to the front of the witness in ascending index order, rewrite every
    /// recorded constraint through the resulting permutation, and compile.
    ///
    /// Returns the public prefix, the remaining private witness, and — in
    /// `Compile` mode — the compiled system, whose satisfiability under the
    /// returned witness coincides with all recorded constraints holding.
    #[verifier::rlimit(100)]
    pub fn finish(self, io: &Vec<Qua>) -> (r: (Vec<Fp>, Vec<Fp>, Option<R1CS>))
        requires
            self.wf(),
            forall|i: int|
                0 <= i < io@.len() ==> (#[trigger] io@[i]).wf() && io@[i].valid_for(self.wit()),
        ensures
            r.0@.len() + r.1@.len() == self.witness@.len() + io@.len(),
            crate::r1cs::wit_view(r.0@ + r.1@).to_multiset() == (self.wit() + io_vals(
                io@,
            )).to_multiset(),
            crate::r1cs::wit_wf(r.0@ + r.1@),
            r.0@.len() >= 1,
            r.0@[0]@ == self.one_val(),
            exists|su: Seq<usize>|
                #[trigger] public_prefix_ok(
                    su,
                    self.one_idx,
                    self.witness@.len() as int,
                    io@.len() as int,
                    r.0@,
                    self.wit() + io_vals(io@),
                ),
            (self.mode == Mode::Compile) == (r.2 is Some),
            r.2 matches Some(cs) ==> {
                &&& cs@.len() == self.exprs@.len() + io@.len()
                &&& forall|i: int|
                    0 <= i < cs@.len() ==> crate::r1cs::row_bound(
                        #[trigger] cs@[i],
                        r.0@.len() + r.1@.len() as int,
                    ) && crate::r1cs::row_wf(cs@[i])
                &&& self.one_val() == 1 ==> (crate::r1cs::rows_hold(
                    cs@,
                    crate::r1cs::wit_view(r.0@ + r.1@),
                ) <==> self.holds())
                &&& exists|pm: Seq<usize>|
                    #[trigger] rows_lowering_ok(
                        pm,
                        self.exprs@,
                        io@,
                        self.witness@.len() as int,
                        self.one_idx,
                        crate::r1cs::wit_view(r.0@ + r.1@),
                        self.wit() + io_vals(io@),
                        cs@,
                    )
            },
    {
        let ghost pre = self;
        let mut store = self;
        let m = io.len();
        let l0 = store.witness.len();

        // wire every I/O expression into a fresh slot
        let mut t: usize = 0;
        while t < m
            invariant
                t <= m,
                m == io@.len(),
                store.wf(),
                store.witness@.len() == l0 + t,
                l0 == pre.witness@.len(),
                store.one_idx == pre.one_idx,
                store.mode == pre.mode,
                store.exprs@.len() == pre.exprs@.len() + (if pre.mode == Mode::Compile {
                    t as int
                } else {
                    0
                }),
                store.wit() == pre.wit() + io_vals(io@).take(t as int),
                store.holds() <==> pre.holds(),
                forall|k: int|
                    0 <= k < pre.exprs@.len() ==> #[trigger] store.exprs@[k] == pre.exprs@[k],
                pre.mode == Mode::Compile ==> forall|k: int|
                    0 <= k < t ==> #[trigger] store.exprs@[pre.exprs@.len() + k] == Expr::Sub(
                        Box::new(io@[k].expr),
                        Box::new(Expr::Idx((l0 + k) as usize)),
                    ),
                forall|i: int|
                    0 <= i < io@.len() ==> (#[trigger] io@[i]).wf() && io@[i].valid_for(pre.wit()),
                forall|u: int| t <= u < m ==> (#[trigger] io@[u]).valid_for(store.wit()),
            decreases m - t,
        {
            let ghost before = store;
            let _ = store.wire(&io[t]);
            t = t + 1;
            proof {
                assert(store.wit() =~= pre.wit() + io_vals(io@).take(t as int));
                if pre.mode == Mode::Compile {
                    assert(store.exprs@[pre.exprs@.len() + (t - 1)] == Expr::Sub(
                        Box::new(io@[t - 1].expr),
                        Box::new(Expr::Idx((l0 + (t - 1)) as usize)),
                    ));
                    assert(forall|k: int|
                        0 <= k < t - 1 ==> #[trigger] store.exprs@[pre.exprs@.len() + k]
                            == before.exprs@[pre.exprs@.len() + k]);
                }
                assert forall|u: int| t <= u < m implies (#[trigger] io@[u]).valid_for(
                    store.wit(),
                ) by {
                    crate::expr::lemma_eval_prefix(io@[u].expr, before.wit(), store.wit());
                    crate::expr::lemma_idx_bound_mono(
                        io@[u].expr,
                        before.wit().len() as int,
                        store.wit().len() as int,
                    );
                }
            }
        }
        let ghost full = store.wit();
        let n = store.witness.len();
        let ghost exprs_after = store.exprs@;
        proof {
            assert(io_vals(io@).take(m as int) =~= io_vals(io@));
            assert(full =~= pre.wit() + io_vals(io@));
            assert((forall|q: int|
                0 <= q < exprs_after.len() ==> (#[trigger] exprs_after[q]).eval(full) == 0)
                <==> pre.holds());
        }

        // the public indices: the fresh I/O slots and the one wire
        let mut idxs: Vec<usize> = Vec::new();
        let mut t2: usize = 0;
        while t2 < m
            invariant
                t2 <= m,
                l0 + m == n,
                idxs@.len() == t2,
                forall|i: int| 0 <= i < t2 ==> #[trigger] idxs@[i] == (l0 + i) as usize,
            decreases m - t2,
        {
            idxs.push(l0 + t2);
            t2 = t2 + 1;
        }
        idxs.push(store.one_idx);
        let ghost idxs0 = idxs@;
        let sorted = sorted_indices(idxs);
        let su = dedup_sorted(&sorted);
        let ghost one0 = pre.one_idx;
        proof {
            broadcast use vstd::seq_lib::group_to_multiset_ensures;

            assert(idxs0.len() == m + 1);
            assert(idxs0[m as int] == one0);
            assert(forall|t: int| 0 <= t < m ==> #[trigger] idxs0[t] == (l0 + t) as usize);
            assert forall|v: usize| #[trigger] su@.contains(v) implies (v == one0 || l0 <= v
                < l0 + m) by {
                assert(sorted@.contains(v));
                assert(sorted@.to_multiset().count(v) > 0);
                assert(idxs0.to_multiset().count(v) > 0);
                assert(idxs0.contains(v));
                let t = choose|t: int| 0 <= t < idxs0.len() && idxs0[t] == v;
                if t < m {
                    assert(v == (l0 + t) as usize);
                } else {
                    assert(v == one0);
                }
            }
            assert forall|v: usize| (v == one0 || l0 <= v < l0 + m) implies #[trigger] su@.contains(
                v,
            ) by {
                if v == one0 {
                    assert(idxs0[m as int] == v);
                } else {
                    assert(idxs0[v - l0] == v);
                }
                assert(idxs0.contains(v));
                assert(idxs0.to_multiset().count(v) > 0);
                assert(sorted@.to_multiset().count(v) > 0);
                assert(sorted@.contains(v));
            }
            // the one wire is the least public index, so it lands in front
            assert(su@.contains(one0));
            assert(su@.len() >= 1);
            if su@[0] != one0 {
                let j = choose|j: int| 0 <= j < su@.len() && su@[j] == one0;
                assert(su@.contains(su@[0]));
                assert(su@[0] == one0 || l0 <= su@[0] < l0 + m);
                assert(j > 0);
                assert(su@[0] < su@[j]);
                assert(false);
            }
            assert forall|i: int| 0 <= i < su@.len() implies (#[trigger] su@[i]) < n by {
                assert(su@.contains(su@[i]));
            }
            assert forall|i: int| 0 <= i < su@.len() implies (#[trigger] su@[i]) >= i by {
                lemma_strict_lower(su@, i);
            }
            assert(su@.len() <= n) by {
                if su@.len() > n {
                    lemma_strict_lower(su@, n as int);
                    assert(su@.contains(su@[n as int]));
                    assert(false);
                }
            }
        }
        let k = su.len();

        // move the public wires to the front by swaps, tracking the
        // permutation and its inverse
        let mut origin: Vec<usize> = Vec::new();
        let mut perm: Vec<usize> = Vec::new();
        let mut p: usize = 0;
        while p < n
            invariant
                p <= n,
                origin@.len() == p,
                perm@.len() == p,
                forall|q: int| 0 <= q < p ==> #[trigger] origin@[q] == q as usize,
                forall|q: int| 0 <= q < p ==> #[trigger] perm@[q] == q as usize,
            decreases n - p,
        {
            origin.push(p);
            perm.push(p);
            p = p + 1;
        }
        let mut i: usize = 0;
        while i < k
            invariant
                i <= k,
                k == su@.len(),
                n == store.witness@.len(),
                n == full.len(),
                store.one_idx == pre.one_idx,
                store.exprs@ == exprs_after,
                store.mode == pre.mode,
                origin@.len() == n,
                perm@.len() == n,
                strictly_increasing(su@),
                forall|t: int| 0 <= t < k ==> (#[trigger] su@[t]) < n,
                forall|t: int| 0 <= t < k ==> (#[trigger] su@[t]) >= t,
                forall|q: int| 0 <= q < n ==> (#[trigger] origin@[q]) < n,
                forall|q: int| 0 <= q < n ==> (#[trigger] perm@[q]) < n,
                forall|q: int| 0 <= q < n ==> #[trigger] perm@[origin@[q] as int] == q as usize,
                forall|q: int| 0 <= q < n ==> #[trigger] origin@[perm@[q] as int] == q as usize,
                forall|q: int|
                    0 <= q < n ==> (#[trigger] store.witness@[q])@ == full[origin@[q] as int],
                crate::r1cs::wit_view(store.witness@).to_multiset() == full.to_multiset(),
                crate::r1cs::wit_wf(store.witness@),
                forall|t: int| 0 <= t < i ==> #[trigger] origin@[t] == su@[t],
                forall|t: int| i <= t < k ==> #[trigger] origin@[su@[t] as int] == su@[t],
            decreases k - i,
        {
            let ghost o_pre = origin@;
            let ghost p_pre = perm@;
            let ghost w_pre = store.witness@;
            let j = su[i];
            proof {
                assert(su@[i as int] >= i);
                assert(origin@[j as int] == j);
            }
            let wi = store.witness[i];
            let wj = store.witness[j];
            store.witness.set(i, wj);
            store.witness.set(j, wi);
            let oi = origin[i];
            let oj = origin[j];
            origin.set(i, oj);
            origin.set(j, oi);
            perm.set(oj, i);
            perm.set(oi, j);
            proof {
                // the two moved entries were each other's images, so one
                // update pair restores the two-sided inverse
                assert(oj == j);
                assert(p_pre[oi as int] == i as usize);
                assert(p_pre[oj as int] == j as usize);
                if i != j {
                    assert(oi != oj);
                }
                assert(origin@ == o_pre.update(i as int, oj).update(j as int, oi));
                assert(perm@ == p_pre.update(oj as int, i as usize).update(oi as int, j as usize));
                assert forall|q: int| 0 <= q < n implies #[trigger] perm@[origin@[q] as int]
                    == q as usize by {
                    if q == i {
                        if i == j as int {
                            assert(origin@[q] == oi);
                        } else {
                            assert(origin@[q] == oj);
                        }
                    } else if q == j as int {
                        assert(origin@[q] == oi);
                    } else {
                        assert(origin@[q] == o_pre[q]);
                        assert(p_pre[o_pre[q] as int] == q as usize);
                        if o_pre[q] == oi || o_pre[q] == oj {
                            assert(false);
                        }
                    }
                }
                assert forall|q: int| 0 <= q < n implies #[trigger] origin@[perm@[q] as int]
                    == q as usize by {
                    if q == oi as int {
                        assert(perm@[q] == j);
                        assert(origin@[j as int] == oi);
                    } else if q == oj as int {
                        assert(perm@[q] == i as usize);
                        assert(origin@[i as int] == oj);
                    } else {
                        assert(perm@[q] == p_pre[q]);
                        assert(o_pre[p_pre[q] as int] == q as usize);
                        if p_pre[q] == i as usize || p_pre[q] == j {
                            assert(false);
                        }
                        assert(origin@[p_pre[q] as int] == o_pre[p_pre[q] as int]);
                    }
                }
                assert forall|q: int| 0 <= q < n implies (#[trigger] store.witness@[q])@
                    == full[origin@[q] as int] by {
                    if q == i {
                    } else if q == j as int {
                    }
                }
                assert(crate::r1cs::wit_view(store.witness@) =~= crate::r1cs::wit_view(
                    w_pre,
                ).update(i as int, w_pre[j as int]@).update(j as int, w_pre[i as int]@));
                assert(crate::r1cs::wit_view(w_pre)[i as int] == w_pre[i as int]@);
                assert(crate::r1cs::wit_view(w_pre)[j as int] == w_pre[j as int]@);
                lemma_swap_multiset(crate::r1cs::wit_view(w_pre), i as int, j as int);
            }
            i = i + 1;
            proof {
                assert forall|t: int| i <= t < k implies #[trigger] origin@[su@[t] as int]
                    == su@[t] by {
                    assert(su@[t] > su@[i - 1]);
                    assert(su@[t] != j && su@[t] as int != i - 1);
                }
                assert forall|t: int| 0 <= t < i implies #[trigger] origin@[t] == su@[t] by {
                    if t < i - 1 {
                        assert(su@[t] < su@[i - 1]);
                        assert(o_pre[t] == su@[t]);
                        assert(t != i - 1 && t != j as int || su@[t] == j);
                    }
                }
            }
        }
        proof {
            // the permutation sends each original slot to the slot that now
            // holds its value
            assert forall|v: int| 0 <= v < n implies (#[trigger] perm@[v]) < n
                && crate::r1cs::wit_view(store.witness@)[perm@[v] as int] == full[v] by {
                assert(origin@[perm@[v] as int] == v as usize);
                assert(store.witness@[perm@[v] as int]@ == full[origin@[perm@[v] as int] as int]);
            }
            assert(perm@[one0 as int] == 0) by {
                assert(origin@[0] == su@[0]);
                assert(su@[0] == one0);
                assert(perm@[origin@[0] as int] == 0);
            }
            assert(crate::term::w_ok(crate::r1cs::wit_view(store.witness@))) by {
                assert forall|q: int|
                    0 <= q < store.witness@.len() implies 0 <= #[trigger] crate::r1cs::wit_view(
                    store.witness@,
                )[q] < (P as int) by {
                    crate::field::lemma_fp_props(store.witness@[q]);
                }
            }
        }
        let ghost new_wit = crate::r1cs::wit_view(store.witness@);

        // rewrite every recorded constraint through the permutation and
        // compile it
        let r1cs_opt: Option<R1CS> = match store.mode {
            Mode::Compile => {
                let mut rows: Vec<crate::r1cs::Constraint> = Vec::new();
                let mut e_i: usize = 0;
                while e_i < store.exprs.len()
                    invariant
                        e_i <= store.exprs@.len(),
                        perm@.len() == n,
                        n == full.len(),
                        n == store.witness@.len(),
                        new_wit == crate::r1cs::wit_view(store.witness@),
                        new_wit.len() == n,
                        crate::term::w_ok(new_wit),
                        forall|v: int|
                            0 <= v < n ==> (#[trigger] perm@[v]) < n && new_wit[perm@[v] as int]
                                == full[v],
                        forall|q: int|
                            0 <= q < store.exprs@.len() ==> (#[trigger] store.exprs@[q]).wf()
                                && store.exprs@[q].classifiable() && store.exprs@[q].idx_bound(
                                n as int,
                            ),
                        rows@.len() == e_i,
                        forall|q: int|
                            0 <= q < e_i ==> crate::r1cs::row_bound(
                                #[trigger] rows@[q]@,
                                n as int,
                            ) && crate::r1cs::row_wf(rows@[q]@),
                        full[one0 as int] == 1 ==> forall|q: int|
                            0 <= q < e_i ==> (crate::r1cs::row_holds(
                                #[trigger] rows@[q]@,
                                new_wit,
                            ) <==> store.exprs@[q].eval(full) == 0),
                        0 <= one0 < n,
                        perm@[one0 as int] == 0,
                        store.one_idx == one0,
                        store.mode == Mode::Compile,
                        store.exprs@ == exprs_after,
                        forall|q: int|
                            0 <= q < e_i ==> lowered(
                                perm@,
                                store.exprs@[q],
                                one0,
                                #[trigger] rows@[q]@,
                            ),
                        forall|q: int|
                            0 <= q < e_i ==> crate::term::lc_sorted((#[trigger] rows@[q]@).a)
                                && crate::term::lc_sorted(rows@[q]@.b) && crate::term::lc_sorted(
                                rows@[q]@.c,
                            ),
                    decreases store.exprs@.len() - e_i,
                {
                    let ghost e = store.exprs@[e_i as int];
                    let one_new = perm[store.one_idx];
                    proof {
                        assert(store.one_idx == one0);
                        crate::expr::lemma_map_indices(e, perm@, full, new_wit);
                    }
                    let mapped = store.exprs[e_i].map_indices(&perm);
                    let ghost rows0 = rows@;
                    match crate::term::parse(&mapped) {
                        Ok(term) => {
                            proof {
                                crate::term::lemma_spec_parse_shape(mapped);
                                crate::term::lemma_shape_wf(mapped);
                                crate::term::lemma_spec_parse_eval(mapped, new_wit);
                                crate::r1cs::lemma_compile_bound_wf(
                                    term@,
                                    one_new as int,
                                    n as int,
                                );
                                if full[one0 as int] == 1 {
                                    crate::r1cs::lemma_compile_row(term@, one_new as int, new_wit);
                                }
                                crate::r1cs::lemma_compile_sorted(term@, one_new as int);
                            }
                            let row = crate::r1cs::compile(term, one_new);
                            proof {
                                assert(lowered(perm@, e, one0, row@));
                            }
                            rows.push(row);
                        }
                        Err(_) => {
                            proof {
                                crate::term::lemma_spec_parse_shape(mapped);
                                assert(false);
                            }
                            rows.push(crate::r1cs::Constraint::empty());
                        }
                    }
                    e_i = e_i + 1;
                    proof {
                        assert(rows@ == rows0.push(rows@[rows@.len() - 1]));
                    }
                }
                proof {
                    assert(rows@.len() == exprs_after.len());
                }
                Some(R1CS(rows))
            }
            Mode::Run => None,
        };

        // split the permuted witness into the public prefix and the rest
        let mut x: Vec<Fp> = Vec::new();
        let mut w_rest: Vec<Fp> = Vec::new();
        let mut s_i: usize = 0;
        while s_i < k
            invariant
                s_i <= k,
                k <= n,
                n == store.witness@.len(),
                x@ == store.witness@.subrange(0, s_i as int),
            decreases k - s_i,
        {
            x.push(store.witness[s_i]);
            s_i = s_i + 1;
            proof {
                assert(x@ =~= store.witness@.subrange(0, s_i as int));
            }
        }
        let mut s_j: usize = k;
        while s_j < n
            invariant
                k <= s_j <= n,
                n == store.witness@.len(),
                x@ == store.witness@.subrange(0, k as int),
                w_rest@ == store.witness@.subrange(k as int, s_j as int),
            decreases n - s_j,
        {
            w_rest.push(store.witness[s_j]);
            s_j = s_j + 1;
            proof {
                assert(w_rest@ =~= store.witness@.subrange(k as int, s_j as int));
            }
        }
        proof {
            assert(x@ + w_rest@ =~= store.witness@);
            assert(crate::r1cs::wit_view(x@ + w_rest@) =~= new_wit);
            assert(public_prefix_ok(su@, pre.one_idx, l0 as int, m as int, x@, full)) by {
                assert forall|i2: int| 0 <= i2 < su@.len() implies (#[trigger] x@[i2])@
                    == full[su@[i2] as int] by {
                    assert(x@[i2] == store.witness@[i2]);
                    assert(store.witness@[i2]@ == full[origin@[i2] as int]);
                    assert(origin@[i2] == su@[i2]);
                }
            }
            assert(x@[0]@ == full[one0 as int]);
            assert(full[one0 as int] == pre.wit()[one0 as int]);
            // the recorded constraints hold under the wired witness exactly
            // when they held before finalization began
            assert forall|q: int| 0 <= q < pre.exprs@.len() implies ((
            #[trigger] pre.exprs@[q]).eval(full) == (#[trigger] pre.exprs@[q]).eval(
                pre.wit(),
            )) by {
                crate::expr::lemma_eval_prefix(pre.exprs@[q], pre.wit(), full);
            }
        }
        proof {
            if pre.mode == Mode::Compile {
                let cs = r1cs_opt->Some_0;
                assert(forall|q: int|
                    0 <= q < cs@.len() ==> #[trigger] cs@[q] == cs.0@[q]@);
                assert(exprs_after == store.exprs@);
                assert(cs@.len() == pre.exprs@.len() + io@.len());
                assert forall|q: int| 0 <= q < cs@.len() implies crate::r1cs::row_bound(
                    #[trigger] cs@[q],
                    (x@.len() + w_rest@.len()) as int,
                ) && crate::r1cs::row_wf(cs@[q]) by {
                    assert(crate::r1cs::row_bound(cs.0@[q]@, n as int));
                }
                if pre.one_val() == 1 {
                    assert(full[one0 as int] == 1);
                    if crate::r1cs::rows_hold(cs@, crate::r1cs::wit_view(x@ + w_rest@)) {
                        assert forall|q: int| 0 <= q < exprs_after.len() implies (
                        #[trigger] exprs_after[q]).eval(full) == 0 by {
                            assert(crate::r1cs::row_holds(cs@[q], new_wit));
                            assert(crate::r1cs::row_holds(cs.0@[q]@, new_wit));
                        }
                        assert(pre.holds());
                    }
                    if pre.holds() {
                        assert forall|q: int| 0 <= q < cs@.len() implies crate::r1cs::row_holds(
                            #[trigger] cs@[q],
                            crate::r1cs::wit_view(x@ + w_rest@),
                        ) by {
                            assert(exprs_after[q].eval(full) == 0);
                            assert(crate::r1cs::row_holds(cs.0@[q]@, new_wit));
                        }
                    }
                }
                // package the per-row lowering relation behind one witness
                // permutation
                assert forall|k: int| 0 <= k < pre.exprs@.len() implies lowered(
                    perm@,
                    pre.exprs@[k],
                    pre.one_idx,
                    #[trigger] cs@[k],
                ) by {
                    assert(exprs_after[k] == pre.exprs@[k]);
                    assert(lowered(perm@, exprs_after[k], one0, cs.0@[k]@));
                }
                assert forall|k: int| 0 <= k < io@.len() implies lowered(
                    perm@,
                    Expr::Sub(Box::new(io@[k].expr), Box::new(Expr::Idx((l0 + k) as usize))),
                    pre.one_idx,
                    #[trigger] cs@[pre.exprs@.len() + k],
                ) by {
                    assert(exprs_after[pre.exprs@.len() + k] == Expr::Sub(
                        Box::new(io@[k].expr),
                        Box::new(Expr::Idx((l0 + k) as usize)),
                    ));
                    assert(lowered(
                        perm@,
                        exprs_after[pre.exprs@.len() + k],
                        one0,
                        cs.0@[pre.exprs@.len() + k]@,
                    ));
                }
                assert forall|k: int| 0 <= k < cs@.len() implies crate::term::lc_sorted(
                    (#[trigger] cs@[k]).a,
                ) && crate::term::lc_sorted(cs@[k].b) && crate::term::lc_sorted(cs@[k].c) by {
                    assert(crate::term::lc_sorted(cs.0@[k]@.a) && crate::term::lc_sorted(
                        cs.0@[k]@.b,
                    ) && crate::term::lc_sorted(cs.0@[k]@.c));
                }
                assert(rows_lowering_ok(
                    perm@,
                    pre.exprs@,
                    io@,
                    l0 as int,
                    pre.one_idx,
                    crate::r1cs::wit_view(x@ + w_rest@),
                    full,
                    cs@,
                ));
            }
        }
        proof {
            assert(full == pre.wit() + io_vals(io@));
            assert(crate::r1cs::wit_view(x@ + w_rest@).to_multiset() == full.to_multiset());
            assert(public_prefix_ok(
                su@,
                pre.one_idx,
                pre.witness@.len() as int,
                io@.len() as int,
                x@,
                pre.wit() + io_vals(io@),
            ));
        }
        (x, w_rest, r1cs_opt)
    }
}

} // verus!
