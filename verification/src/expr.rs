//! The symbolic expression tree recorded for each constraint.
//!
//! An `Expr` is a polynomial over indexed wires (`Idx`) and field constants
//! (`Coeff`), combined by addition, subtraction and multiplication. Its
//! meaning is `eval`: the value of the polynomial under a witness vector.

use vstd::prelude::*;
use crate::field::{Fp, fadd, fsub, fmul};

verus! {

/// A node of the expression tree.
#[derive(Debug)]
pub enum Expr {
    /// A literal field constant.
    Coeff(Fp),
    /// A reference to a witness slot.
    Idx(usize),
    /// The sum of two subtrees.
    Add(Box<Expr>, Box<Expr>),
    /// The difference of two subtrees.
    Sub(Box<Expr>, Box<Expr>),
    /// The product of two subtrees.
    Mul(Box<Expr>, Box<Expr>),
}

impl Expr {
    /// An expression holding the given literal constant.
    pub fn coefficient(value: Fp) -> (r: Expr)
        ensures
            r == Expr::Coeff(value),
    {
        Expr::Coeff(value)
    }

    /// A structurally equal copy of this expression.
    pub fn duplicate(&self) -> (r: Expr)
        ensures
            r == *self,
        decreases *self,
    {
        match self {
            Expr::Coeff(c) => Expr::Coeff(*c),
            Expr::Idx(i) => Expr::Idx(*i),
            Expr::Add(l, r) => Expr::Add(Box::new(l.duplicate()), Box::new(r.duplicate())),
            Expr::Sub(l, r) => Expr::Sub(Box::new(l.duplicate()), Box::new(r.duplicate())),
            Expr::Mul(l, r) => Expr::Mul(Box::new(l.duplicate()), Box::new(r.duplicate())),
        }
    }

    /// Every coefficient in the tree is a reduced residue.
    pub open spec fn wf(self) -> bool
        decreases self,
    {
        match self {
            Expr::Coeff(c) => c.wf(),
            Expr::Idx(_) => true,
            Expr::Add(l, r) => l.wf() && r.wf(),
            Expr::Sub(l, r) => l.wf() && r.wf(),
            Expr::Mul(l, r) => l.wf() && r.wf(),
        }
    }

    /// Every wire index in the tree lies below `n`.
    pub open spec fn idx_bound(self, n: int) -> bool
        decreases self,
    {
        match self {
            Expr::Coeff(_) => true,
            Expr::Idx(i) => i < n,
            Expr::Add(l, r) => l.idx_bound(n) && r.idx_bound(n),
            Expr::Sub(l, r) => l.idx_bound(n) && r.idx_bound(n),
            Expr::Mul(l, r) => l.idx_bound(n) && r.idx_bound(n),
        }
    }

    /// The value of the polynomial under witness `w`, in the field.
    pub open spec fn eval(self, w: Seq<int>) -> int
        decreases self,
    {
        match self {
            Expr::Coeff(c) => c@,
            Expr::Idx(i) => w[i as int],
            Expr::Add(l, r) => fadd(l.eval(w), r.eval(w)),
            Expr::Sub(l, r) => fsub(l.eval(w), r.eval(w)),
            Expr::Mul(l, r) => fmul(l.eval(w), r.eval(w)),
        }
    }

    /// The syntactic degree of the tree: constants are degree 0, wires are
    /// degree 1, sums take the maximum and products the sum.
    pub open spec fn degree(self) -> int
        decreases self,
    {
        match self {
            Expr::Coeff(_) => 0,
            Expr::Idx(_) => 1,
            Expr::Add(l, r) => if l.degree() >= r.degree() { l.degree() } else { r.degree() },
            Expr::Sub(l, r) => if l.degree() >= r.degree() { l.degree() } else { r.degree() },
            Expr::Mul(l, r) => l.degree() + r.degree(),
        }
    }

    /// The tree holds at most one bilinear product along every additive
    /// spine: the shape the classifier can reduce to a rank-1 term.
    pub open spec fn rank1(self) -> bool
        decreases self,
    {
        match self {
            Expr::Coeff(_) => true,
            Expr::Idx(_) => true,
            Expr::Add(l, r) => l.rank1() && r.rank1() && !(l.degree() == 2 && r.degree() == 2),
            Expr::Sub(l, r) => l.rank1() && r.rank1() && !(l.degree() == 2 && r.degree() == 2),
            Expr::Mul(l, r) => l.rank1() && r.rank1() && l.degree() + r.degree() <= 2,
        }
    }

    /// Classification succeeds exactly on well-shaped trees: every product
    /// has total degree at most two, and no sum joins two products.
    pub open spec fn classifiable(self) -> bool {
        self.rank1()
    }
}

impl Expr {
    /// The tree with every wire index `n` replaced by `pm[n]`.
    pub open spec fn spec_map_indices(self, pm: Seq<usize>) -> Expr
        decreases self,
    {
        match self {
            Expr::Coeff(c) => Expr::Coeff(c),
            Expr::Idx(i) => Expr::Idx(pm[i as int]),
            Expr::Add(l, r) => Expr::Add(
                Box::new(l.spec_map_indices(pm)),
                Box::new(r.spec_map_indices(pm)),
            ),
            Expr::Sub(l, r) => Expr::Sub(
                Box::new(l.spec_map_indices(pm)),
                Box::new(r.spec_map_indices(pm)),
            ),
            Expr::Mul(l, r) => Expr::Mul(
                Box::new(l.spec_map_indices(pm)),
                Box::new(r.spec_map_indices(pm)),
            ),
        }
    }

    /// Replace every wire index `n` of the tree by `perm[n]`.
    pub fn map_indices(&self, perm: &Vec<usize>) -> (r: Expr)
        requires
            self.idx_bound(perm@.len() as int),
        ensures
            r == self.spec_map_indices(perm@),
        decreases *self,
    {
        match self {
            Expr::Coeff(c) => Expr::Coeff(*c),
            Expr::Idx(i) => Expr::Idx(perm[*i]),
            Expr::Add(l, r) => Expr::Add(
                Box::new(l.map_indices(perm)),
                Box::new(r.map_indices(perm)),
            ),
            Expr::Sub(l, r) => Expr::Sub(
                Box::new(l.map_indices(perm)),
                Box::new(r.map_indices(perm)),
            ),
            Expr::Mul(l, r) => Expr::Mul(
                Box::new(l.map_indices(perm)),
                Box::new(r.map_indices(perm)),
            ),
        }
    }
}

/// An index bound stays valid when it grows.
pub proof fn lemma_idx_bound_mono(e: Expr, n: int, m: int)
    requires
        e.idx_bound(n),
        n <= m,
    ensures
        e.idx_bound(m),
    decreases e,
{
    match e {
        Expr::Coeff(_) => {}
        Expr::Idx(_) => {}
        Expr::Add(l, r) => {
            lemma_idx_bound_mono(*l, n, m);
            lemma_idx_bound_mono(*r, n, m);
        }
        Expr::Sub(l, r) => {
            lemma_idx_bound_mono(*l, n, m);
            lemma_idx_bound_mono(*r, n, m);
        }
        Expr::Mul(l, r) => {
            lemma_idx_bound_mono(*l, n, m);
            lemma_idx_bound_mono(*r, n, m);
        }
    }
}

/// Evaluation only reads the witness slots below the tree's index bound, so
/// it is unchanged when the witness is extended.
pub proof fn lemma_eval_prefix(e: Expr, w1: Seq<int>, w2: Seq<int>)
    requires
        e.idx_bound(w1.len() as int),
        w1.len() <= w2.len(),
        forall|i: int| 0 <= i < w1.len() ==> w2[i] == w1[i],
    ensures
        e.eval(w2) == e.eval(w1),
    decreases e,
{
    match e {
        Expr::Coeff(_) => {}
        Expr::Idx(_) => {}
        Expr::Add(l, r) => {
            lemma_eval_prefix(*l, w1, w2);
            lemma_eval_prefix(*r, w1, w2);
        }
        Expr::Sub(l, r) => {
            lemma_eval_prefix(*l, w1, w2);
            lemma_eval_prefix(*r, w1, w2);
        }
        Expr::Mul(l, r) => {
            lemma_eval_prefix(*l, w1, w2);
            lemma_eval_prefix(*r, w1, w2);
        }
    }
}

/// Rewriting the wire indices through a mapping keeps the tree's shape, and
/// keeps its value whenever the new witness holds, at each mapped slot, the
/// value the old witness held at the original slot.
pub proof fn lemma_map_indices(e: Expr, pm: Seq<usize>, w1: Seq<int>, w2: Seq<int>)
    requires
        e.idx_bound(pm.len() as int),
        forall|j: int| 0 <= j < pm.len() ==> (#[trigger] pm[j]) < w2.len(),
        forall|j: int| 0 <= j < pm.len() ==> w2[#[trigger] pm[j] as int] == w1[j],
    ensures
        e.spec_map_indices(pm).eval(w2) == e.eval(w1),
        e.spec_map_indices(pm).wf() == e.wf(),
        e.spec_map_indices(pm).degree() == e.degree(),
        e.spec_map_indices(pm).rank1() == e.rank1(),
        e.spec_map_indices(pm).idx_bound(w2.len() as int),
    decreases e,
{
    match e {
        Expr::Coeff(_) => {}
        Expr::Idx(_) => {}
        Expr::Add(l, r) => {
            lemma_map_indices(*l, pm, w1, w2);
            lemma_map_indices(*r, pm, w1, w2);
        }
        Expr::Sub(l, r) => {
            lemma_map_indices(*l, pm, w1, w2);
            lemma_map_indices(*r, pm, w1, w2);
        }
        Expr::Mul(l, r) => {
            lemma_map_indices(*l, pm, w1, w2);
            lemma_map_indices(*r, pm, w1, w2);
        }
    }
}

/// A well-shaped tree has degree at most two.
pub proof fn lemma_rank1_degree(e: Expr)
    ensures
        e.rank1() ==> 0 <= e.degree() <= 2,
        e.degree() >= 0,
    decreases e,
{
    match e {
        Expr::Coeff(_) => {}
        Expr::Idx(_) => {}
        Expr::Add(l, r) => {
            lemma_rank1_degree(*l);
            lemma_rank1_degree(*r);
        }
        Expr::Sub(l, r) => {
            lemma_rank1_degree(*l);
            lemma_rank1_degree(*r);
        }
        Expr::Mul(l, r) => {
            lemma_rank1_degree(*l);
            lemma_rank1_degree(*r);
        }
    }
}

/// A tree whose syntactic degree exceeds two cannot be classified.
pub proof fn lemma_degree_overflow(e: Expr)
    ensures
        e.degree() > 2 ==> !e.classifiable(),
{
    lemma_rank1_degree(e);
}

} // verus!
