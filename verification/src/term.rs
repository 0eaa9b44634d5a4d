//! The term classifier: reduces an expression tree to a canonical rank-1
//! form `k * (A . w) * (B . w) + L . w + c`, with at most one bilinear
//! product, a merged linear combination, and a constant.
//!
//! The exec classifier `parse` is specified against `spec_parse`, a
//! spec-level mirror on the mathematical model, and the correctness theorem
//! `lemma_spec_parse_eval` states that classification preserves the value of
//! the expression under every reduced witness.

use vstd::prelude::*;
use crate::field::{Fp, P, fadd, fmul, fneg, fsub};
use crate::expr::Expr;

verus! {

/// Why classification failed.
#[derive(Clone, Copy, Debug, PartialEq, Eq, Structural)]
pub enum ParseError {
    /// A product has total degree above two.
    DegreeOverflow,
    /// A sum or difference joins two bilinear products, which no single
    /// rank-1 constraint can express.
    RankOverflow,
}

/// The bilinear part of a classified term: `k * (a . w) * (b . w)`.
#[derive(Debug)]
pub struct QuadPart {
    /// The scalar factor on the product.
    pub k: Fp,
    /// The left factor, a linear combination.
    pub a: Vec<(usize, Fp)>,
    /// The right factor, a linear combination.
    pub b: Vec<(usize, Fp)>,
}

/// A classified term: `k * (a . w) * (b . w) + lin . w + c`.
#[derive(Debug)]
pub struct Term {
    /// The constant part.
    pub c: Fp,
    /// The linear part, strictly sorted by wire index.
    pub lin: Vec<(usize, Fp)>,
    /// The bilinear part, present exactly when the expression has degree two.
    pub quad: Option<QuadPart>,
}

/// The mathematical model of a classified term.
pub struct TermV {
    /// The constant part.
    pub c: int,
    /// The linear part as (index, coefficient) pairs.
    pub lin: Seq<(int, int)>,
    /// The bilinear part as (scalar, left factor, right factor).
    pub quad: Option<(int, Seq<(int, int)>, Seq<(int, int)>)>,
}

/// The model of an exec linear combination.
pub open spec fn lc_view(l: Seq<(usize, Fp)>) -> Seq<(int, int)> {
    l.map(|i: int, e: (usize, Fp)| (e.0 as int, e.1@))
}

impl Term {
    /// The mathematical model of this term.
    pub open spec fn view(&self) -> TermV {
        TermV {
            c: self.c@,
            lin: lc_view(self.lin@),
            quad: match self.quad {
                None => None,
                Some(q) => Some((q.k@, lc_view(q.a@), lc_view(q.b@))),
            },
        }
    }
}

/// The witness holds only reduced residues.
pub open spec fn w_ok(w: Seq<int>) -> bool {
    forall|k: int| 0 <= k < w.len() ==> 0 <= #[trigger] w[k] < P as int
}

/// The value of a linear combination under witness `w`.
pub open spec fn lc_eval(l: Seq<(int, int)>, w: Seq<int>) -> int
    decreases l.len(),
{
    if l.len() == 0 {
        0
    } else {
        fadd(fmul(l[0].1, w[l[0].0]), lc_eval(l.drop_first(), w))
    }
}

/// Indices strictly increase along the combination.
pub open spec fn lc_sorted(l: Seq<(int, int)>) -> bool {
    forall|i: int, j: int| 0 <= i < j < l.len() ==> #[trigger] l[i].0 < #[trigger] l[j].0
}

/// Coefficients are reduced residues.
pub open spec fn lc_wf(l: Seq<(int, int)>) -> bool {
    forall|i: int| 0 <= i < l.len() ==> 0 <= (#[trigger] l[i]).1 < P as int
}

/// Indices lie below `n`.
pub open spec fn lc_bound(l: Seq<(int, int)>, n: int) -> bool {
    forall|i: int| 0 <= i < l.len() ==> 0 <= (#[trigger] l[i]).0 < n
}

/// The value of a term under witness `w`.
pub open spec fn term_eval(t: TermV, w: Seq<int>) -> int {
    match t.quad {
        None => fadd(lc_eval(t.lin, w), t.c),
        Some((k, a, b)) => fadd(
            fmul(k, fmul(lc_eval(a, w), lc_eval(b, w))),
            fadd(lc_eval(t.lin, w), t.c),
        ),
    }
}

/// Merging two combinations: walk both in index order, adding coefficients
/// where the indices collide.
pub open spec fn spec_lc_add(x: Seq<(int, int)>, y: Seq<(int, int)>) -> Seq<(int, int)>
    decreases x.len() + y.len(),
{
    if x.len() == 0 {
        y
    } else if y.len() == 0 {
        x
    } else if x[0].0 < y[0].0 {
        seq![x[0]] + spec_lc_add(x.drop_first(), y)
    } else if y[0].0 < x[0].0 {
        seq![y[0]] + spec_lc_add(x, y.drop_first())
    } else {
        seq![(x[0].0, fadd(x[0].1, y[0].1))] + spec_lc_add(x.drop_first(), y.drop_first())
    }
}

/// Scaling a combination by a field constant.
pub open spec fn spec_lc_scale(x: Seq<(int, int)>, k: int) -> Seq<(int, int)> {
    x.map(|i: int, e: (int, int)| (e.0, fmul(k, e.1)))
}

/// Negating a combination.
pub open spec fn spec_lc_neg(x: Seq<(int, int)>) -> Seq<(int, int)> {
    x.map(|i: int, e: (int, int)| (e.0, fneg(e.1)))
}

/// Every index of the combination exceeds `b`.
pub open spec fn lc_lb(l: Seq<(int, int)>, b: int) -> bool {
    forall|i: int| 0 <= i < l.len() ==> (#[trigger] l[i]).0 > b
}

/// Facts about prepending one element to a combination.
proof fn lemma_cons(h: (int, int), t: Seq<(int, int)>)
    ensures
        (seq![h] + t).len() == t.len() + 1,
        (seq![h] + t)[0] == h,
        (seq![h] + t).drop_first() == t,
        forall|i: int| 0 <= i < t.len() ==> (seq![h] + t)[i + 1] == #[trigger] t[i],
{
    assert((seq![h] + t).drop_first() =~= t);
}

/// A combination evaluates to a reduced residue.
pub proof fn lemma_lc_eval_range(l: Seq<(int, int)>, w: Seq<int>)
    ensures
        0 <= lc_eval(l, w) < P as int,
    decreases l.len(),
{
    if l.len() > 0 {
        crate::field::lemma_f_range(fmul(l[0].1, w[l[0].0]) + lc_eval(l.drop_first(), w));
    }
}

/// Evaluating a cons unfolds to one step.
proof fn lemma_lc_eval_cons(h: (int, int), t: Seq<(int, int)>, w: Seq<int>)
    ensures
        lc_eval(seq![h] + t, w) == fadd(fmul(h.1, w[h.0]), lc_eval(t, w)),
{
    lemma_cons(h, t);
}

/// Merging preserves evaluation: the merge of two combinations evaluates to
/// the field sum of their values.
pub proof fn lemma_lc_add_eval(x: Seq<(int, int)>, y: Seq<(int, int)>, w: Seq<int>)
    ensures
        lc_eval(spec_lc_add(x, y), w) == fadd(lc_eval(x, w), lc_eval(y, w)),
    decreases x.len() + y.len(),
{
    lemma_lc_eval_range(x, w);
    lemma_lc_eval_range(y, w);
    if x.len() == 0 {
        crate::field::lemma_fadd_zero(lc_eval(y, w));
    } else if y.len() == 0 {
        crate::field::lemma_fadd_zero(lc_eval(x, w));
    } else if x[0].0 < y[0].0 {
        let hv = fmul(x[0].1, w[x[0].0]);
        lemma_lc_add_eval(x.drop_first(), y, w);
        lemma_lc_eval_cons(x[0], spec_lc_add(x.drop_first(), y), w);
        crate::field::lemma_fadd_assoc(hv, lc_eval(x.drop_first(), w), lc_eval(y, w));
    } else if y[0].0 < x[0].0 {
        let hv = fmul(y[0].1, w[y[0].0]);
        lemma_lc_add_eval(x, y.drop_first(), w);
        lemma_lc_eval_cons(y[0], spec_lc_add(x, y.drop_first()), w);
        crate::field::lemma_fadd_assoc(hv, lc_eval(x, w), lc_eval(y.drop_first(), w));
        crate::field::lemma_fadd_comm(hv, lc_eval(x, w));
        crate::field::lemma_fadd_assoc(lc_eval(x, w), hv, lc_eval(y.drop_first(), w));
    } else {
        let wv = w[x[0].0];
        let xv = fmul(x[0].1, wv);
        let yv = fmul(y[0].1, wv);
        lemma_lc_add_eval(x.drop_first(), y.drop_first(), w);
        lemma_lc_eval_cons((x[0].0, fadd(x[0].1, y[0].1)), spec_lc_add(x.drop_first(), y.drop_first()), w);
        crate::field::lemma_fmul_distrib_right(x[0].1, y[0].1, wv);
        crate::field::lemma_fadd_rearrange(xv, lc_eval(x.drop_first(), w), yv, lc_eval(y.drop_first(), w));
        crate::field::lemma_fadd_rearrange(xv, yv, lc_eval(x.drop_first(), w), lc_eval(y.drop_first(), w));
    }
}

/// Prepending an element below a bound keeps the combination bounded.
proof fn lemma_lc_bound_cons(h: (int, int), t: Seq<(int, int)>)
    ensures
        forall|n: int| 0 <= h.0 < n && lc_bound(t, n) ==> lc_bound(seq![h] + t, n),
{
    lemma_cons(h, t);
    assert forall|n: int| 0 <= h.0 < n && lc_bound(t, n) implies lc_bound(seq![h] + t, n) by {
        assert forall|i: int| 0 <= i < (seq![h] + t).len() implies 0 <= ((#[trigger] (seq![h]
            + t)[i]).0) < n by {
            if i > 0 {
                assert((seq![h] + t)[i] == t[i - 1]);
            }
        }
    }
}

/// Dropping the head keeps a combination bounded.
proof fn lemma_lc_bound_drop(x: Seq<(int, int)>)
    requires
        x.len() > 0,
    ensures
        forall|n: int| lc_bound(x, n) ==> lc_bound(x.drop_first(), n),
{
    assert(forall|i: int| 0 <= i < x.drop_first().len() ==> #[trigger] x.drop_first()[i] == x[i
        + 1]);
}

/// Merging preserves sortedness, lower bounds, reducedness and index bounds.
pub proof fn lemma_lc_add_props(x: Seq<(int, int)>, y: Seq<(int, int)>)
    requires
        lc_sorted(x),
        lc_sorted(y),
    ensures
        lc_sorted(spec_lc_add(x, y)),
        forall|b: int| lc_lb(x, b) && lc_lb(y, b) ==> lc_lb(#[trigger] spec_lc_add(x, y), b),
        lc_wf(x) && lc_wf(y) ==> lc_wf(spec_lc_add(x, y)),
        forall|n: int| lc_bound(x, n) && lc_bound(y, n) ==> lc_bound(#[trigger] spec_lc_add(x, y), n),
    decreases x.len() + y.len(),
{
    if x.len() == 0 || y.len() == 0 {
    } else {
        let xt = x.drop_first();
        let yt = y.drop_first();
        lemma_lc_bound_drop(x);
        lemma_lc_bound_drop(y);
        assert(lc_sorted(xt) && lc_lb(xt, x[0].0)) by {
            assert(forall|i: int| 0 <= i < xt.len() ==> #[trigger] xt[i] == x[i + 1]);
        }
        assert(lc_sorted(yt) && lc_lb(yt, y[0].0)) by {
            assert(forall|i: int| 0 <= i < yt.len() ==> #[trigger] yt[i] == y[i + 1]);
        }
        if x[0].0 < y[0].0 {
            lemma_lc_add_props(xt, y);
            let t = spec_lc_add(xt, y);
            lemma_cons(x[0], t);
            lemma_lc_bound_cons(x[0], t);
            assert(lc_lb(y, x[0].0));
            assert(lc_lb(t, x[0].0));
            assert forall|n: int| lc_bound(x, n) && lc_bound(y, n) implies lc_bound(
                #[trigger] spec_lc_add(x, y),
                n,
            ) by {
                assert(lc_bound(t, n));
            }
        } else if y[0].0 < x[0].0 {
            lemma_lc_add_props(x, yt);
            let t = spec_lc_add(x, yt);
            lemma_cons(y[0], t);
            lemma_lc_bound_cons(y[0], t);
            assert(lc_lb(x, y[0].0));
            assert(lc_lb(t, y[0].0));
            assert forall|n: int| lc_bound(x, n) && lc_bound(y, n) implies lc_bound(
                #[trigger] spec_lc_add(x, y),
                n,
            ) by {
                assert(lc_bound(t, n));
            }
        } else {
            lemma_lc_add_props(xt, yt);
            let t = spec_lc_add(xt, yt);
            let h = (x[0].0, fadd(x[0].1, y[0].1));
            lemma_cons(h, t);
            lemma_lc_bound_cons(h, t);
            assert(lc_lb(t, x[0].0));
            crate::field::lemma_f_range(x[0].1 + y[0].1);
            assert forall|n: int| lc_bound(x, n) && lc_bound(y, n) implies lc_bound(
                #[trigger] spec_lc_add(x, y),
                n,
            ) by {
                assert(lc_bound(t, n));
            }
        }
    }
}

/// Merging is commutative.
pub proof fn lemma_lc_add_comm(x: Seq<(int, int)>, y: Seq<(int, int)>)
    ensures
        spec_lc_add(x, y) == spec_lc_add(y, x),
    decreases x.len() + y.len(),
{
    if x.len() == 0 && y.len() == 0 {
        assert(spec_lc_add(x, y) =~= spec_lc_add(y, x));
    } else if x.len() == 0 || y.len() == 0 {
    } else if x[0].0 < y[0].0 {
        lemma_lc_add_comm(x.drop_first(), y);
    } else if y[0].0 < x[0].0 {
        lemma_lc_add_comm(x, y.drop_first());
    } else {
        lemma_lc_add_comm(x.drop_first(), y.drop_first());
        crate::field::lemma_fadd_comm(x[0].1, y[0].1);
    }
}

/// Scaling preserves evaluation: the scaled combination evaluates to the
/// field product of the scalar and the original value.
pub proof fn lemma_lc_scale_eval(x: Seq<(int, int)>, k: int, w: Seq<int>)
    ensures
        lc_eval(spec_lc_scale(x, k), w) == fmul(k, lc_eval(x, w)),
    decreases x.len(),
{
    if x.len() == 0 {
        crate::field::lemma_fmul_zero(k);
    } else {
        let s = spec_lc_scale(x, k);
        assert(s.drop_first() =~= spec_lc_scale(x.drop_first(), k));
        lemma_lc_scale_eval(x.drop_first(), k, w);
        let wv = w[x[0].0];
        crate::field::lemma_fmul_assoc(k, x[0].1, wv);
        crate::field::lemma_fmul_distrib(k, fmul(x[0].1, wv), lc_eval(x.drop_first(), w));
    }
}

/// Negation preserves evaluation: the negated combination evaluates to the
/// field negation of the original value.
pub proof fn lemma_lc_neg_eval(x: Seq<(int, int)>, w: Seq<int>)
    ensures
        lc_eval(spec_lc_neg(x), w) == fneg(lc_eval(x, w)),
    decreases x.len(),
{
    if x.len() == 0 {
        assert(fneg(0) == 0);
    } else {
        let s = spec_lc_neg(x);
        assert(s.drop_first() =~= spec_lc_neg(x.drop_first()));
        lemma_lc_neg_eval(x.drop_first(), w);
        let wv = w[x[0].0];
        crate::field::lemma_fneg_fmul_left(x[0].1, wv);
        crate::field::lemma_fneg_fadd(fmul(x[0].1, wv), lc_eval(x.drop_first(), w));
    }
}

/// Mapping over a combination keeps indices, so sortedness, lower bounds and
/// index bounds carry over to scaled and negated combinations; coefficients
/// stay reduced.
pub proof fn lemma_lc_map_props(x: Seq<(int, int)>, k: int)
    ensures
        lc_sorted(x) ==> lc_sorted(spec_lc_scale(x, k)) && lc_sorted(spec_lc_neg(x)),
        forall|n: int|
            lc_bound(x, n) ==> lc_bound(#[trigger] spec_lc_scale(x, k), n) && lc_bound(
                #[trigger] spec_lc_neg(x),
                n,
            ),
        lc_wf(spec_lc_scale(x, k)),
        lc_wf(spec_lc_neg(x)),
{
    assert forall|i: int| 0 <= i < x.len() implies 0 <= (#[trigger] spec_lc_scale(x, k)[i]).1
        < P as int && 0 <= (#[trigger] spec_lc_neg(x)[i]).1 < P as int by {
        crate::field::lemma_f_range(k * x[i].1);
        crate::field::lemma_f_range(0 - x[i].1);
    }
}

/// Total lexicographic order on combinations, used only to pick a canonical
/// orientation for the two factors of a product.
pub open spec fn spec_lc_le(x: Seq<(int, int)>, y: Seq<(int, int)>) -> bool
    decreases x.len() + y.len(),
{
    if x.len() == 0 {
        true
    } else if y.len() == 0 {
        false
    } else if x[0].0 != y[0].0 {
        x[0].0 < y[0].0
    } else if x[0].1 != y[0].1 {
        x[0].1 < y[0].1
    } else {
        spec_lc_le(x.drop_first(), y.drop_first())
    }
}

/// The order is total.
pub proof fn lemma_lc_le_total(x: Seq<(int, int)>, y: Seq<(int, int)>)
    ensures
        spec_lc_le(x, y) || spec_lc_le(y, x),
    decreases x.len() + y.len(),
{
    if x.len() > 0 && y.len() > 0 && x[0] == y[0] {
        lemma_lc_le_total(x.drop_first(), y.drop_first());
    }
}

/// The order is antisymmetric.
pub proof fn lemma_lc_le_antisym(x: Seq<(int, int)>, y: Seq<(int, int)>)
    requires
        spec_lc_le(x, y),
        spec_lc_le(y, x),
    ensures
        x == y,
    decreases x.len() + y.len(),
{
    if x.len() == 0 {
        assert(y.len() == 0);
        assert(x =~= y);
    } else {
        assert(x[0] == y[0]);
        lemma_lc_le_antisym(x.drop_first(), y.drop_first());
        assert(x =~= seq![x[0]] + x.drop_first());
        assert(y =~= seq![y[0]] + y.drop_first());
    }
}

/// Classifying a sum: the two parts merge unless both carry a product.
pub open spec fn spec_combine_add(tl: TermV, tr: TermV) -> Result<TermV, ParseError> {
    if tl.quad is Some && tr.quad is Some {
        Err(ParseError::RankOverflow)
    } else {
        Ok(
            TermV {
                c: fadd(tl.c, tr.c),
                lin: spec_lc_add(tl.lin, tr.lin),
                quad: if tl.quad is Some {
                    tl.quad
                } else {
                    tr.quad
                },
            },
        )
    }
}

/// Classifying a difference: the right part is negated and merged in.
pub open spec fn spec_combine_sub(tl: TermV, tr: TermV) -> Result<TermV, ParseError> {
    if tl.quad is Some && tr.quad is Some {
        Err(ParseError::RankOverflow)
    } else {
        Ok(
            TermV {
                c: fsub(tl.c, tr.c),
                lin: spec_lc_add(tl.lin, spec_lc_neg(tr.lin)),
                quad: match tr.quad {
                    Some((k, a, b)) => Some((fneg(k), a, b)),
                    None => tl.quad,
                },
            },
        )
    }
}

/// Classifying a product. A product with a degree-two part on one side
/// admits only a constant on the other; two affine parts form the bilinear
/// product, with the factors in canonical orientation.
pub open spec fn spec_combine_mul(tl: TermV, tr: TermV) -> Result<TermV, ParseError> {
    match (tl.quad, tr.quad) {
        (Some(_), Some(_)) => Err(ParseError::DegreeOverflow),
        (Some((k, a, b)), None) => if tr.lin.len() == 0 {
            Ok(
                TermV {
                    c: fmul(tl.c, tr.c),
                    lin: spec_lc_scale(tl.lin, tr.c),
                    quad: Some((fmul(k, tr.c), a, b)),
                },
            )
        } else {
            Err(ParseError::DegreeOverflow)
        },
        (None, Some((k, a, b))) => if tl.lin.len() == 0 {
            Ok(
                TermV {
                    c: fmul(tl.c, tr.c),
                    lin: spec_lc_scale(tr.lin, tl.c),
                    quad: Some((fmul(k, tl.c), a, b)),
                },
            )
        } else {
            Err(ParseError::DegreeOverflow)
        },
        (None, None) => if tl.lin.len() == 0 {
            Ok(
                TermV {
                    c: fmul(tl.c, tr.c),
                    lin: spec_lc_scale(tr.lin, tl.c),
                    quad: None,
                },
            )
        } else if tr.lin.len() == 0 {
            Ok(
                TermV {
                    c: fmul(tl.c, tr.c),
                    lin: spec_lc_scale(tl.lin, tr.c),
                    quad: None,
                },
            )
        } else {
            Ok(
                TermV {
                    c: fmul(tl.c, tr.c),
                    lin: spec_lc_add(spec_lc_scale(tl.lin, tr.c), spec_lc_scale(tr.lin, tl.c)),
                    quad: if spec_lc_le(tl.lin, tr.lin) {
                        Some((1, tl.lin, tr.lin))
                    } else {
                        Some((1, tr.lin, tl.lin))
                    },
                },
            )
        },
    }
}

/// The spec-level classifier that `parse` implements.
pub open spec fn spec_parse(e: Expr) -> Result<TermV, ParseError>
    decreases e,
{
    match e {
        Expr::Coeff(c) => Ok(TermV { c: c@, lin: Seq::empty(), quad: None }),
        Expr::Idx(i) => Ok(TermV { c: 0, lin: seq![(i as int, 1int)], quad: None }),
        Expr::Add(l, r) => match (spec_parse(*l), spec_parse(*r)) {
            (Err(k), _) => Err(k),
            (Ok(_), Err(k)) => Err(k),
            (Ok(tl), Ok(tr)) => spec_combine_add(tl, tr),
        },
        Expr::Sub(l, r) => match (spec_parse(*l), spec_parse(*r)) {
            (Err(k), _) => Err(k),
            (Ok(_), Err(k)) => Err(k),
            (Ok(tl), Ok(tr)) => spec_combine_sub(tl, tr),
        },
        Expr::Mul(l, r) => match (spec_parse(*l), spec_parse(*r)) {
            (Err(k), _) => Err(k),
            (Ok(_), Err(k)) => Err(k),
            (Ok(tl), Ok(tr)) => spec_combine_mul(tl, tr),
        },
    }
}

/// Merging never shortens a combination.
pub proof fn lemma_lc_add_len(x: Seq<(int, int)>, y: Seq<(int, int)>)
    ensures
        spec_lc_add(x, y).len() >= x.len(),
        spec_lc_add(x, y).len() >= y.len(),
    decreases x.len() + y.len(),
{
    if x.len() == 0 || y.len() == 0 {
    } else if x[0].0 < y[0].0 {
        lemma_lc_add_len(x.drop_first(), y);
    } else if y[0].0 < x[0].0 {
        lemma_lc_add_len(x, y.drop_first());
    } else {
        lemma_lc_add_len(x.drop_first(), y.drop_first());
    }
}

/// The well-formedness a classified term inherits from its expression:
/// canonically sorted parts, reduced coefficients where the tree is
/// well-formed, bounded indices where the tree's are bounded, and a bilinear
/// part exactly for degree-two trees.
pub open spec fn term_shape_ok(e: Expr, t: TermV) -> bool {
    &&& lc_sorted(t.lin)
    &&& (e.wf() ==> 0 <= t.c < P as int && lc_wf(t.lin))
    &&& (t.quad is Some <==> e.degree() == 2)
    &&& (e.degree() == 0 ==> t.lin.len() == 0)
    &&& (e.degree() == 1 ==> t.lin.len() > 0)
    &&& (forall|n: int| #[trigger] e.idx_bound(n) ==> lc_bound(t.lin, n))
    &&& match t.quad {
        None => true,
        Some((k, a, b)) => {
            &&& lc_sorted(a)
            &&& lc_sorted(b)
            &&& (e.wf() ==> 0 <= k < P as int && lc_wf(a) && lc_wf(b))
            &&& (forall|n: int| #[trigger] e.idx_bound(n) ==> lc_bound(a, n) && lc_bound(b, n))
        },
    }
}

/// Classification succeeds exactly on classifiable trees, and its result is
/// well shaped.
pub proof fn lemma_spec_parse_shape(e: Expr)
    ensures
        spec_parse(e) is Ok <==> e.classifiable(),
        spec_parse(e) matches Ok(t) ==> term_shape_ok(e, t),
    decreases e,
{
    crate::expr::lemma_rank1_degree(e);
    match e {
        Expr::Coeff(c) => {
            crate::field::lemma_fp_props(c);
        }
        Expr::Idx(i) => {
            assert forall|n: int| #[trigger] e.idx_bound(n) implies lc_bound(
                seq![(i as int, 1int)],
                n,
            ) by {
                assert(seq![(i as int, 1int)][0] == (i as int, 1int));
            }
        }
        Expr::Add(l, r) => {
            lemma_spec_parse_shape(*l);
            lemma_spec_parse_shape(*r);
            crate::expr::lemma_rank1_degree(*l);
            crate::expr::lemma_rank1_degree(*r);
            if spec_parse(*l) is Ok && spec_parse(*r) is Ok {
                let tl = spec_parse(*l)->Ok_0;
                let tr = spec_parse(*r)->Ok_0;
                if !(tl.quad is Some && tr.quad is Some) {
                    let t = spec_combine_add(tl, tr)->Ok_0;
                    lemma_lc_add_props(tl.lin, tr.lin);
                    lemma_lc_add_len(tl.lin, tr.lin);
                    crate::field::lemma_f_range(tl.c + tr.c);
                    assert forall|n: int| #[trigger] e.idx_bound(n) implies lc_bound(t.lin, n)
                        && match t.quad {
                        None => true,
                        Some((k, a, b)) => lc_bound(a, n) && lc_bound(b, n),
                    } by {
                        assert(l.idx_bound(n) && r.idx_bound(n));
                        assert(lc_bound(spec_lc_add(tl.lin, tr.lin), n));
                    }
                }
            }
        }
        Expr::Sub(l, r) => {
            lemma_spec_parse_shape(*l);
            lemma_spec_parse_shape(*r);
            crate::expr::lemma_rank1_degree(*l);
            crate::expr::lemma_rank1_degree(*r);
            if spec_parse(*l) is Ok && spec_parse(*r) is Ok {
                let tl = spec_parse(*l)->Ok_0;
                let tr = spec_parse(*r)->Ok_0;
                if !(tl.quad is Some && tr.quad is Some) {
                    let t = spec_combine_sub(tl, tr)->Ok_0;
                    lemma_lc_map_props(tr.lin, 0);
                    lemma_lc_add_props(tl.lin, spec_lc_neg(tr.lin));
                    lemma_lc_add_len(tl.lin, spec_lc_neg(tr.lin));
                    crate::field::lemma_f_range(tl.c - tr.c);
                    if tr.quad is Some {
                        crate::field::lemma_f_range(0 - (tr.quad->Some_0).0);
                    }
                    assert forall|n: int| #[trigger] e.idx_bound(n) implies lc_bound(t.lin, n)
                        && match t.quad {
                        None => true,
                        Some((k, a, b)) => lc_bound(a, n) && lc_bound(b, n),
                    } by {
                        assert(l.idx_bound(n) && r.idx_bound(n));
                        assert(lc_bound(spec_lc_neg(tr.lin), n));
                        assert(lc_bound(spec_lc_add(tl.lin, spec_lc_neg(tr.lin)), n));
                    }
                }
            }
        }
        Expr::Mul(l, r) => {
            lemma_spec_parse_shape(*l);
            lemma_spec_parse_shape(*r);
            crate::expr::lemma_rank1_degree(*l);
            crate::expr::lemma_rank1_degree(*r);
            if spec_parse(*l) is Ok && spec_parse(*r) is Ok {
                let tl = spec_parse(*l)->Ok_0;
                let tr = spec_parse(*r)->Ok_0;
                lemma_lc_map_props(tl.lin, tr.c);
                lemma_lc_map_props(tr.lin, tl.c);
                crate::field::lemma_f_range(tl.c * tr.c);
                match (tl.quad, tr.quad) {
                    (Some(_), Some(_)) => {}
                    (Some((k, a, b)), None) => {
                        crate::field::lemma_f_range(k * tr.c);
                        assert(r.degree() == 0 <==> tr.lin.len() == 0);
                        assert forall|n: int| #[trigger] e.idx_bound(n) implies lc_bound(
                            spec_lc_scale(tl.lin, tr.c),
                            n,
                        ) && lc_bound(a, n) && lc_bound(b, n) by {
                            assert(l.idx_bound(n) && r.idx_bound(n));
                            assert(lc_bound(tl.lin, n));
                            assert(lc_bound(spec_lc_scale(tl.lin, tr.c), n));
                        }
                    }
                    (None, Some((k, a, b))) => {
                        crate::field::lemma_f_range(k * tl.c);
                        assert(l.degree() == 0 <==> tl.lin.len() == 0);
                        assert forall|n: int| #[trigger] e.idx_bound(n) implies lc_bound(
                            spec_lc_scale(tr.lin, tl.c),
                            n,
                        ) && lc_bound(a, n) && lc_bound(b, n) by {
                            assert(l.idx_bound(n) && r.idx_bound(n));
                            assert(lc_bound(tr.lin, n));
                            assert(lc_bound(spec_lc_scale(tr.lin, tl.c), n));
                        }
                    }
                    (None, None) => {
                        if tl.lin.len() == 0 {
                            assert forall|n: int| #[trigger] e.idx_bound(n) implies lc_bound(
                                spec_lc_scale(tr.lin, tl.c),
                                n,
                            ) by {
                                assert(l.idx_bound(n) && r.idx_bound(n));
                                assert(lc_bound(tr.lin, n));
                                assert(lc_bound(spec_lc_scale(tr.lin, tl.c), n));
                            }
                        } else if tr.lin.len() == 0 {
                            assert forall|n: int| #[trigger] e.idx_bound(n) implies lc_bound(
                                spec_lc_scale(tl.lin, tr.c),
                                n,
                            ) by {
                                assert(l.idx_bound(n) && r.idx_bound(n));
                                assert(lc_bound(tl.lin, n));
                                assert(lc_bound(spec_lc_scale(tl.lin, tr.c), n));
                            }
                        } else {
                            assert(l.degree() == 1 && r.degree() == 1);
                            let t = spec_combine_mul(tl, tr)->Ok_0;
                            lemma_lc_add_props(
                                spec_lc_scale(tl.lin, tr.c),
                                spec_lc_scale(tr.lin, tl.c),
                            );
                            assert forall|n: int| #[trigger] e.idx_bound(n) implies lc_bound(
                                t.lin,
                                n,
                            ) && match t.quad {
                                None => true,
                                Some((k, a, b)) => lc_bound(a, n) && lc_bound(b, n),
                            } by {
                                assert(l.idx_bound(n) && r.idx_bound(n));
                                assert(lc_bound(tl.lin, n) && lc_bound(tr.lin, n));
                                assert(lc_bound(spec_lc_scale(tl.lin, tr.c), n));
                                assert(lc_bound(spec_lc_scale(tr.lin, tl.c), n));
                                assert(lc_bound(
                                    spec_lc_add(
                                        spec_lc_scale(tl.lin, tr.c),
                                        spec_lc_scale(tr.lin, tl.c),
                                    ),
                                    n,
                                ));
                            }
                        }
                    }
                }
            }
        }
    }
}

/// All coefficients of a term model are reduced residues.
pub open spec fn termv_wf(t: TermV) -> bool {
    &&& 0 <= t.c < P as int
    &&& lc_wf(t.lin)
    &&& match t.quad {
        None => true,
        Some((k, a, b)) => 0 <= k < P as int && lc_wf(a) && lc_wf(b),
    }
}

/// The flattened value of a term: one reduction of the integer sum.
proof fn lemma_term_eval_flat(t: TermV, w: Seq<int>)
    ensures
        term_eval(t, w) == match t.quad {
            None => (lc_eval(t.lin, w) + t.c) % (P as int),
            Some((k, a, b)) => (k * lc_eval(a, w) * lc_eval(b, w) + lc_eval(t.lin, w) + t.c) % (
            P as int),
        },
{
    let p = P as int;
    match t.quad {
        None => {}
        Some((k, a, b)) => {
            let av = lc_eval(a, w);
            let bv = lc_eval(b, w);
            let lv = lc_eval(t.lin, w);
            vstd::arithmetic::div_mod::lemma_mul_mod_noop_right(k, av * bv, p);
            assert(k * (av * bv) == k * av * bv) by (nonlinear_arith);
            assert(fmul(k, fmul(av, bv)) == (k * av * bv) % p);
            crate::field::lemma_fadd3_flat(fmul(k, fmul(av, bv)), lv, t.c);
            crate::field::lemma_fadd_noop3(k * av * bv, lv, t.c);
        }
    }
}

/// Classifying a sum preserves the value: the combined term evaluates to
/// the field sum of the two parts.
proof fn lemma_combine_add_eval(tl: TermV, tr: TermV, w: Seq<int>)
    requires
        !(tl.quad is Some && tr.quad is Some),
    ensures
        term_eval(spec_combine_add(tl, tr)->Ok_0, w) == fadd(term_eval(tl, w), term_eval(tr, w)),
{
    let p = P as int;
    let t = spec_combine_add(tl, tr)->Ok_0;
    let l1 = lc_eval(tl.lin, w);
    let l2 = lc_eval(tr.lin, w);
    let c1 = tl.c;
    let c2 = tr.c;
    lemma_lc_add_eval(tl.lin, tr.lin, w);
    vstd::arithmetic::div_mod::lemma_add_mod_noop(l1 + l2, c1 + c2, p);
    vstd::arithmetic::div_mod::lemma_add_mod_noop(l1 + c1, l2 + c2, p);
    match (tl.quad, tr.quad) {
        (None, None) => {
            assert(term_eval(t, w) == ((l1 + l2) % p + (c1 + c2) % p) % p);
            assert(fadd(term_eval(tl, w), term_eval(tr, w)) == ((l1 + c1) % p + (l2 + c2) % p)
                % p);
        }
        (Some((k, a, b)), None) => {
            let q = fmul(k, fmul(lc_eval(a, w), lc_eval(b, w)));
            assert(t.quad == tl.quad);
            assert(term_eval(t, w) == (q + ((l1 + l2) % p + (c1 + c2) % p) % p) % p);
            vstd::arithmetic::div_mod::lemma_add_mod_noop_right(q, l1 + l2 + c1 + c2, p);
            assert(term_eval(t, w) == (q + (l1 + l2 + c1 + c2)) % p);
            vstd::arithmetic::div_mod::lemma_add_mod_noop_right(q, l1 + c1, p);
            assert(term_eval(tl, w) == (q + (l1 + c1)) % p);
            vstd::arithmetic::div_mod::lemma_add_mod_noop(q + l1 + c1, l2 + c2, p);
        }
        (None, Some((k, a, b))) => {
            let q = fmul(k, fmul(lc_eval(a, w), lc_eval(b, w)));
            assert(t.quad == tr.quad);
            assert(term_eval(t, w) == (q + ((l1 + l2) % p + (c1 + c2) % p) % p) % p);
            vstd::arithmetic::div_mod::lemma_add_mod_noop_right(q, l1 + l2 + c1 + c2, p);
            assert(term_eval(t, w) == (q + (l1 + l2 + c1 + c2)) % p);
            vstd::arithmetic::div_mod::lemma_add_mod_noop_right(q, l2 + c2, p);
            assert(term_eval(tr, w) == (q + (l2 + c2)) % p);
            vstd::arithmetic::div_mod::lemma_add_mod_noop(l1 + c1, q + l2 + c2, p);
        }
        (Some(_), Some(_)) => {}
    }
}

/// Classifying a difference preserves the value: the combined term
/// evaluates to the field difference of the two parts.
proof fn lemma_combine_sub_eval(tl: TermV, tr: TermV, w: Seq<int>)
    requires
        !(tl.quad is Some && tr.quad is Some),
    ensures
        term_eval(spec_combine_sub(tl, tr)->Ok_0, w) == fsub(term_eval(tl, w), term_eval(tr, w)),
{
    let p = P as int;
    let t = spec_combine_sub(tl, tr)->Ok_0;
    let l1 = lc_eval(tl.lin, w);
    let l2 = lc_eval(tr.lin, w);
    let c1 = tl.c;
    let c2 = tr.c;
    lemma_lc_neg_eval(tr.lin, w);
    lemma_lc_add_eval(tl.lin, spec_lc_neg(tr.lin), w);
    vstd::arithmetic::div_mod::lemma_add_mod_noop_right(l1, 0 - l2, p);
    assert(lc_eval(t.lin, w) == (l1 - l2) % p);
    vstd::arithmetic::div_mod::lemma_add_mod_noop(l1 - l2, c1 - c2, p);
    vstd::arithmetic::div_mod::lemma_sub_mod_noop(l1 + c1, l2 + c2, p);
    match (tl.quad, tr.quad) {
        (None, None) => {
            assert(term_eval(t, w) == ((l1 - l2) % p + (c1 - c2) % p) % p);
            assert(fsub(term_eval(tl, w), term_eval(tr, w)) == ((l1 + c1) % p - (l2 + c2) % p)
                % p);
        }
        (Some((k, a, b)), None) => {
            let q = fmul(k, fmul(lc_eval(a, w), lc_eval(b, w)));
            assert(t.quad == tl.quad);
            assert(term_eval(t, w) == (q + ((l1 - l2) % p + (c1 - c2) % p) % p) % p);
            vstd::arithmetic::div_mod::lemma_add_mod_noop_right(q, l1 - l2 + c1 - c2, p);
            assert(term_eval(t, w) == (q + (l1 - l2 + c1 - c2)) % p);
            vstd::arithmetic::div_mod::lemma_add_mod_noop_right(q, l1 + c1, p);
            assert(term_eval(tl, w) == (q + (l1 + c1)) % p);
            vstd::arithmetic::div_mod::lemma_sub_mod_noop(q + l1 + c1, l2 + c2, p);
        }
        (None, Some((k, a, b))) => {
            let av = lc_eval(a, w);
            let bv = lc_eval(b, w);
            let q = fmul(k, fmul(av, bv));
            crate::field::lemma_fneg_fmul_left(k, fmul(av, bv));
            assert(t.quad->Some_0 == (fneg(k), a, b));
            assert(term_eval(t, w) == (fneg(q) + ((l1 - l2) % p + (c1 - c2) % p) % p) % p);
            vstd::arithmetic::div_mod::lemma_add_mod_noop_right(fneg(q), l1 - l2 + c1 - c2, p);
            assert(term_eval(t, w) == (fneg(q) + (l1 - l2 + c1 - c2)) % p);
            crate::field::lemma_fadd_noop3(0 - q, l1 - l2 + c1 - c2, 0);
            assert(term_eval(t, w) == (0 - q + (l1 - l2 + c1 - c2)) % p);
            vstd::arithmetic::div_mod::lemma_add_mod_noop_right(q, l2 + c2, p);
            assert(term_eval(tr, w) == (q + (l2 + c2)) % p);
            vstd::arithmetic::div_mod::lemma_sub_mod_noop(l1 + c1, q + l2 + c2, p);
        }
        (Some(_), Some(_)) => {}
    }
}

/// Classifying a product preserves the value: when classification
/// succeeds, the combined term evaluates to the field product of the two
/// parts.
#[verifier::rlimit(50)]
proof fn lemma_combine_mul_eval(tl: TermV, tr: TermV, w: Seq<int>)
    requires
        termv_wf(tl),
        termv_wf(tr),
        spec_combine_mul(tl, tr) is Ok,
    ensures
        term_eval(spec_combine_mul(tl, tr)->Ok_0, w) == fmul(term_eval(tl, w), term_eval(tr, w)),
{
    let p = P as int;
    let t = spec_combine_mul(tl, tr)->Ok_0;
    let l1 = lc_eval(tl.lin, w);
    let l2 = lc_eval(tr.lin, w);
    let c1 = tl.c;
    let c2 = tr.c;
    lemma_lc_eval_range(tl.lin, w);
    lemma_lc_eval_range(tr.lin, w);
    lemma_term_eval_flat(tl, w);
    lemma_term_eval_flat(tr, w);
    lemma_term_eval_flat(t, w);
    match (tl.quad, tr.quad) {
        (Some(_), Some(_)) => {}
        (Some((k, a, b)), None) => {
            let av = lc_eval(a, w);
            let bv = lc_eval(b, w);
            // the right part is a bare constant
            assert(tr.lin.len() == 0);
            crate::field::lemma_f_reduced(c2);
            assert(term_eval(tr, w) == c2);
            lemma_lc_scale_eval(tl.lin, c2, w);
            assert(term_eval(t, w) == (fmul(k, c2) * av * bv + fmul(c2, l1) + fmul(c1, c2)) % p);
            assert(fmul(k, c2) * av * bv == ((k * c2) % p) * (av * bv)) by (nonlinear_arith)
                requires fmul(k, c2) == (k * c2) % p;
            vstd::arithmetic::div_mod::lemma_mul_mod_noop_left(k * c2, av * bv, p);
            assert((fmul(k, c2) * av * bv) % p == (k * c2 * (av * bv)) % p);
            assert(k * c2 * (av * bv) == k * c2 * av * bv) by (nonlinear_arith);
            crate::field::lemma_mod_subst_add(
                fmul(k, c2) * av * bv,
                k * c2 * av * bv,
                fmul(c2, l1) + fmul(c1, c2),
            );
            vstd::arithmetic::div_mod::lemma_mod_twice(c2 * l1, p);
            crate::field::lemma_mod_subst_add(fmul(c2, l1), c2 * l1, k * c2 * av * bv + fmul(c1, c2));
            vstd::arithmetic::div_mod::lemma_mod_twice(c1 * c2, p);
            crate::field::lemma_mod_subst_add(fmul(c1, c2), c1 * c2, k * c2 * av * bv + c2 * l1);
            assert(term_eval(t, w) == (k * c2 * av * bv + c2 * l1 + c1 * c2) % p);
            let s = k * av * bv + l1 + c1;
            assert(term_eval(tl, w) == s % p);
            vstd::arithmetic::div_mod::lemma_mul_mod_noop_left(s, c2, p);
            assert(fmul(term_eval(tl, w), c2) == (s * c2) % p);
            assert(s * c2 == k * c2 * av * bv + c2 * l1 + c1 * c2) by (nonlinear_arith)
                requires s == k * av * bv + l1 + c1;
        }
        (None, Some((k, a, b))) => {
            let av = lc_eval(a, w);
            let bv = lc_eval(b, w);
            // the left part is a bare constant
            assert(tl.lin.len() == 0);
            crate::field::lemma_f_reduced(c1);
            assert(term_eval(tl, w) == c1);
            lemma_lc_scale_eval(tr.lin, c1, w);
            assert(term_eval(t, w) == (fmul(k, c1) * av * bv + fmul(c1, l2) + fmul(c1, c2)) % p);
            assert(fmul(k, c1) * av * bv == ((k * c1) % p) * (av * bv)) by (nonlinear_arith)
                requires fmul(k, c1) == (k * c1) % p;
            vstd::arithmetic::div_mod::lemma_mul_mod_noop_left(k * c1, av * bv, p);
            assert((fmul(k, c1) * av * bv) % p == (k * c1 * (av * bv)) % p);
            assert(k * c1 * (av * bv) == k * c1 * av * bv) by (nonlinear_arith);
            crate::field::lemma_mod_subst_add(
                fmul(k, c1) * av * bv,
                k * c1 * av * bv,
                fmul(c1, l2) + fmul(c1, c2),
            );
            vstd::arithmetic::div_mod::lemma_mod_twice(c1 * l2, p);
            crate::field::lemma_mod_subst_add(fmul(c1, l2), c1 * l2, k * c1 * av * bv + fmul(c1, c2));
            vstd::arithmetic::div_mod::lemma_mod_twice(c1 * c2, p);
            crate::field::lemma_mod_subst_add(fmul(c1, c2), c1 * c2, k * c1 * av * bv + c1 * l2);
            assert(term_eval(t, w) == (k * c1 * av * bv + c1 * l2 + c1 * c2) % p);
            let s = k * av * bv + l2 + c2;
            assert(term_eval(tr, w) == s % p);
            vstd::arithmetic::div_mod::lemma_mul_mod_noop_right(c1, s, p);
            assert(fmul(c1, term_eval(tr, w)) == (c1 * s) % p);
            assert(c1 * s == k * c1 * av * bv + c1 * l2 + c1 * c2) by (nonlinear_arith)
                requires s == k * av * bv + l2 + c2;
        }
        (None, None) => {
            if tl.lin.len() == 0 {
                crate::field::lemma_f_reduced(c1);
                assert(term_eval(tl, w) == c1);
                lemma_lc_scale_eval(tr.lin, c1, w);
                assert(term_eval(t, w) == (fmul(c1, l2) + fmul(c1, c2)) % p);
                vstd::arithmetic::div_mod::lemma_add_mod_noop(c1 * l2, c1 * c2, p);
                assert(term_eval(t, w) == (c1 * l2 + c1 * c2) % p);
                vstd::arithmetic::div_mod::lemma_mul_mod_noop_right(c1, l2 + c2, p);
                assert(fmul(c1, term_eval(tr, w)) == (c1 * (l2 + c2)) % p);
                assert(c1 * (l2 + c2) == c1 * l2 + c1 * c2) by (nonlinear_arith);
            } else if tr.lin.len() == 0 {
                crate::field::lemma_f_reduced(c2);
                assert(term_eval(tr, w) == c2);
                lemma_lc_scale_eval(tl.lin, c2, w);
                assert(term_eval(t, w) == (fmul(c2, l1) + fmul(c1, c2)) % p);
                vstd::arithmetic::div_mod::lemma_add_mod_noop(c2 * l1, c1 * c2, p);
                assert(term_eval(t, w) == (c2 * l1 + c1 * c2) % p);
                vstd::arithmetic::div_mod::lemma_mul_mod_noop_left(l1 + c1, c2, p);
                assert(fmul(term_eval(tl, w), c2) == ((l1 + c1) * c2) % p);
                assert((l1 + c1) * c2 == c2 * l1 + c1 * c2) by (nonlinear_arith);
            } else {
                lemma_lc_scale_eval(tl.lin, c2, w);
                lemma_lc_scale_eval(tr.lin, c1, w);
                lemma_lc_add_eval(spec_lc_scale(tl.lin, c2), spec_lc_scale(tr.lin, c1), w);
                let lin_v = lc_eval(t.lin, w);
                vstd::arithmetic::div_mod::lemma_add_mod_noop(c2 * l1, c1 * l2, p);
                assert(lin_v == (c2 * l1 + c1 * l2) % p);
                let prod: int = if spec_lc_le(tl.lin, tr.lin) {
                    1 * l1 * l2
                } else {
                    1 * l2 * l1
                };
                assert(term_eval(t, w) == (prod + lin_v + fmul(c1, c2)) % p);
                assert(prod == l1 * l2) by (nonlinear_arith)
                    requires prod == 1 * l1 * l2 || prod == 1 * l2 * l1;
                crate::field::lemma_mod_subst_add(prod, l1 * l2, lin_v + fmul(c1, c2));
                vstd::arithmetic::div_mod::lemma_mod_twice(c2 * l1 + c1 * l2, p);
                crate::field::lemma_mod_subst_add(
                    lin_v,
                    c2 * l1 + c1 * l2,
                    l1 * l2 + fmul(c1, c2),
                );
                vstd::arithmetic::div_mod::lemma_mod_twice(c1 * c2, p);
                crate::field::lemma_mod_subst_add(
                    fmul(c1, c2),
                    c1 * c2,
                    l1 * l2 + c2 * l1 + c1 * l2,
                );
                assert(term_eval(t, w) == (l1 * l2 + c2 * l1 + c1 * l2 + c1 * c2) % p);
                vstd::arithmetic::div_mod::lemma_mul_mod_noop_general(l1 + c1, l2 + c2, p);
                assert(fmul(term_eval(tl, w), term_eval(tr, w)) == ((l1 + c1) * (l2 + c2)) % p);
                assert((l1 + c1) * (l2 + c2) == l1 * l2 + c2 * l1 + c1 * l2 + c1 * c2)
                    by (nonlinear_arith);
            }
        }
    }
}

/// A well-shaped term of a well-formed expression has reduced coefficients.
pub proof fn lemma_shape_wf(e: Expr)
    requires
        e.wf(),
        spec_parse(e) is Ok,
    ensures
        termv_wf(spec_parse(e)->Ok_0),
{
    lemma_spec_parse_shape(e);
}

/// Classification preserves meaning: a classified expression evaluates, as
/// a term, to the value of the expression tree, under every reduced witness
/// that covers its wire indices.
pub proof fn lemma_spec_parse_eval(e: Expr, w: Seq<int>)
    requires
        e.wf(),
        w_ok(w),
        e.idx_bound(w.len() as int),
        spec_parse(e) is Ok,
    ensures
        term_eval(spec_parse(e)->Ok_0, w) == e.eval(w),
    decreases e,
{
    let p = P as int;
    match e {
        Expr::Coeff(c) => {
            crate::field::lemma_fp_props(c);
            crate::field::lemma_f_reduced(c@);
            assert(term_eval(spec_parse(e)->Ok_0, w) == (0 + c@) % p);
        }
        Expr::Idx(i) => {
            let l = seq![(i as int, 1int)];
            assert(l.len() == 1 && l[0] == (i as int, 1int));
            assert(l.drop_first() =~= Seq::<(int, int)>::empty());
            assert(lc_eval(l.drop_first(), w) == 0);
            assert(lc_eval(l, w) == fadd(fmul(1, w[i as int]), 0));
            crate::field::lemma_f_reduced(w[i as int]);
            assert(fmul(1, w[i as int]) == w[i as int]);
            assert(fadd(w[i as int], 0) == w[i as int]);
            assert(term_eval(spec_parse(e)->Ok_0, w) == fadd(w[i as int], 0));
        }
        Expr::Add(l, r) => {
            lemma_spec_parse_eval(*l, w);
            lemma_spec_parse_eval(*r, w);
            lemma_combine_add_eval(spec_parse(*l)->Ok_0, spec_parse(*r)->Ok_0, w);
        }
        Expr::Sub(l, r) => {
            lemma_spec_parse_eval(*l, w);
            lemma_spec_parse_eval(*r, w);
            lemma_combine_sub_eval(spec_parse(*l)->Ok_0, spec_parse(*r)->Ok_0, w);
        }
        Expr::Mul(l, r) => {
            lemma_spec_parse_eval(*l, w);
            lemma_spec_parse_eval(*r, w);
            lemma_shape_wf(*l);
            lemma_shape_wf(*r);
            lemma_combine_mul_eval(spec_parse(*l)->Ok_0, spec_parse(*r)->Ok_0, w);
        }
    }
}

/// Classification fails on every tree of degree above two, instead of
/// silently producing a wrong answer.
pub proof fn lemma_degree_overflow_fails(e: Expr)
    requires
        e.degree() > 2,
    ensures
        spec_parse(e) is Err,
{
    crate::expr::lemma_degree_overflow(e);
    lemma_spec_parse_shape(e);
}

/// Classification of a sum does not depend on the order of the operands.
pub proof fn lemma_parse_add_comm(a: Expr, b: Expr)
    ensures
        spec_parse(Expr::Add(Box::new(a), Box::new(b))) is Ok <==> spec_parse(
            Expr::Add(Box::new(b), Box::new(a)),
        ) is Ok,
        spec_parse(Expr::Add(Box::new(a), Box::new(b))) is Ok ==> spec_parse(
            Expr::Add(Box::new(a), Box::new(b)),
        ) == spec_parse(Expr::Add(Box::new(b), Box::new(a))),
{
    let ab = Expr::Add(Box::new(a), Box::new(b));
    let ba = Expr::Add(Box::new(b), Box::new(a));
    if spec_parse(a) is Ok && spec_parse(b) is Ok {
        let ta = spec_parse(a)->Ok_0;
        let tb = spec_parse(b)->Ok_0;
        if !(ta.quad is Some && tb.quad is Some) {
            lemma_lc_add_comm(ta.lin, tb.lin);
            crate::field::lemma_fadd_comm(ta.c, tb.c);
            assert(spec_combine_add(ta, tb)->Ok_0 == spec_combine_add(tb, ta)->Ok_0);
        }
    }
}

/// Classification of a product does not depend on the order of the
/// operands: the bilinear pair comes out in one canonical orientation.
pub proof fn lemma_parse_mul_comm(a: Expr, b: Expr)
    ensures
        spec_parse(Expr::Mul(Box::new(a), Box::new(b))) is Ok <==> spec_parse(
            Expr::Mul(Box::new(b), Box::new(a)),
        ) is Ok,
        spec_parse(Expr::Mul(Box::new(a), Box::new(b))) is Ok ==> spec_parse(
            Expr::Mul(Box::new(a), Box::new(b)),
        ) == spec_parse(Expr::Mul(Box::new(b), Box::new(a))),
{
    if spec_parse(a) is Ok && spec_parse(b) is Ok {
        let ta = spec_parse(a)->Ok_0;
        let tb = spec_parse(b)->Ok_0;
        crate::field::lemma_fmul_comm(ta.c, tb.c);
        match (ta.quad, tb.quad) {
            (Some(_), Some(_)) => {}
            (Some(_), None) => {}
            (None, Some(_)) => {}
            (None, None) => {
                if ta.lin.len() == 0 && tb.lin.len() == 0 {
                    assert(spec_lc_scale(tb.lin, ta.c) =~= spec_lc_scale(ta.lin, tb.c));
                } else if ta.lin.len() > 0 && tb.lin.len() > 0 {
                    lemma_lc_add_comm(spec_lc_scale(ta.lin, tb.c), spec_lc_scale(tb.lin, ta.c));
                    lemma_lc_le_total(ta.lin, tb.lin);
                    if spec_lc_le(ta.lin, tb.lin) && spec_lc_le(tb.lin, ta.lin) {
                        lemma_lc_le_antisym(ta.lin, tb.lin);
                    }
                    assert(spec_combine_mul(ta, tb)->Ok_0 == spec_combine_mul(tb, ta)->Ok_0);
                }
            }
        }
    }
}

/// Merge two sorted linear combinations, adding coefficients on equal
/// indices.
pub(crate) fn lc_add(x: &Vec<(usize, Fp)>, y: &Vec<(usize, Fp)>) -> (r: Vec<(usize, Fp)>)
    requires
        lc_wf(lc_view(x@)),
        lc_wf(lc_view(y@)),
    ensures
        lc_view(r@) == spec_lc_add(lc_view(x@), lc_view(y@)),
{
    let ghost xs = lc_view(x@);
    let ghost ys = lc_view(y@);
    let mut r: Vec<(usize, Fp)> = Vec::new();
    let mut i: usize = 0;
    let mut j: usize = 0;
    proof {
        assert(xs.skip(0) =~= xs);
        assert(ys.skip(0) =~= ys);
        assert(lc_view(r@) + spec_lc_add(xs, ys) =~= spec_lc_add(xs, ys));
    }
    while i < x.len() || j < y.len()
        invariant
            i <= x.len(),
            j <= y.len(),
            xs == lc_view(x@),
            ys == lc_view(y@),
            lc_wf(xs),
            lc_wf(ys),
            spec_lc_add(xs, ys) == lc_view(r@) + spec_lc_add(
                xs.skip(i as int),
                ys.skip(j as int),
            ),
        decreases x.len() - i + y.len() - j,
    {
        let ghost r0 = lc_view(r@);
        let ghost xr = xs.skip(i as int);
        let ghost yr = ys.skip(j as int);
        proof {
            if i < x.len() {
                assert(xr.len() == xs.len() - i);
                assert(xr[0] == xs[i as int]);
                assert(xr.drop_first() =~= xs.skip(i as int + 1));
                assert(xs[i as int] == (x@[i as int].0 as int, x@[i as int].1@));
            }
            if j < y.len() {
                assert(yr.len() == ys.len() - j);
                assert(yr[0] == ys[j as int]);
                assert(yr.drop_first() =~= ys.skip(j as int + 1));
                assert(ys[j as int] == (y@[j as int].0 as int, y@[j as int].1@));
            }
        }
        let take_x: bool = if j >= y.len() {
            true
        } else if i >= x.len() {
            false
        } else {
            x[i].0 < y[j].0
        };
        let take_y: bool = if i >= x.len() {
            true
        } else if j >= y.len() {
            false
        } else {
            y[j].0 < x[i].0
        };
        if take_x {
            let e = (x[i].0, x[i].1);
            r.push(e);
            i = i + 1;
            proof {
                assert(spec_lc_add(xr, yr) == seq![xr[0]] + spec_lc_add(
                    xs.skip(i as int),
                    yr,
                ));
                assert(lc_view(r@) =~= r0 + seq![(e.0 as int, e.1@)]);
                assert(lc_view(r@) + spec_lc_add(xs.skip(i as int), yr) =~= r0 + spec_lc_add(
                    xr,
                    yr,
                ));
            }
        } else if take_y {
            let e = (y[j].0, y[j].1);
            r.push(e);
            j = j + 1;
            proof {
                assert(spec_lc_add(xr, yr) == seq![yr[0]] + spec_lc_add(
                    xr,
                    ys.skip(j as int),
                ));
                assert(lc_view(r@) =~= r0 + seq![(e.0 as int, e.1@)]);
                assert(lc_view(r@) + spec_lc_add(xr, ys.skip(j as int)) =~= r0 + spec_lc_add(
                    xr,
                    yr,
                ));
            }
        } else {
            proof {
                assert(i < x.len() && j < y.len() && x@[i as int].0 == y@[j as int].0);
                assert(xs[i as int].1 == x@[i as int].1@ && 0 <= xs[i as int].1 < P as int);
                assert(ys[j as int].1 == y@[j as int].1@ && 0 <= ys[j as int].1 < P as int);
                crate::field::lemma_fp_props(x@[i as int].1);
                crate::field::lemma_fp_props(y@[j as int].1);
            }
            let e = (x[i].0, x[i].1.add(y[j].1));
            r.push(e);
            i = i + 1;
            j = j + 1;
            proof {
                assert(spec_lc_add(xr, yr) == seq![(xr[0].0, fadd(xr[0].1, yr[0].1))]
                    + spec_lc_add(xs.skip(i as int), ys.skip(j as int)));
                assert(lc_view(r@) =~= r0 + seq![(e.0 as int, e.1@)]);
                assert((e.0 as int, e.1@) == (xr[0].0, fadd(xr[0].1, yr[0].1)));
                assert(lc_view(r@) + spec_lc_add(xs.skip(i as int), ys.skip(j as int)) =~= r0
                    + spec_lc_add(xr, yr));
            }
        }
    }
    proof {
        assert(xs.skip(i as int) =~= Seq::<(int, int)>::empty());
        assert(ys.skip(j as int) =~= Seq::<(int, int)>::empty());
        assert(lc_view(r@) + spec_lc_add(xs.skip(i as int), ys.skip(j as int)) =~= lc_view(r@));
    }
    r
}

/// Scale every coefficient of a combination by `k`.
pub(crate) fn lc_scale(x: &Vec<(usize, Fp)>, k: Fp) -> (r: Vec<(usize, Fp)>)
    requires
        lc_wf(lc_view(x@)),
        k.wf(),
    ensures
        lc_view(r@) == spec_lc_scale(lc_view(x@), k@),
{
    let mut r: Vec<(usize, Fp)> = Vec::new();
    let mut i: usize = 0;
    while i < x.len()
        invariant
            i <= x.len(),
            r@.len() == i,
            lc_wf(lc_view(x@)),
            k.wf(),
            forall|t: int|
                0 <= t < i ==> #[trigger] lc_view(r@)[t] == (
                    x@[t].0 as int,
                    fmul(k@, x@[t].1@),
                ),
        decreases x.len() - i,
    {
        proof {
            assert(lc_view(x@)[i as int] == (x@[i as int].0 as int, x@[i as int].1@));
            crate::field::lemma_fp_props(x@[i as int].1);
        }
        let e = (x[i].0, k.mul(x[i].1));
        let ghost r0 = r@;
        r.push(e);
        i = i + 1;
        proof {
            assert(lc_view(r@) =~= lc_view(r0).push((e.0 as int, e.1@)));
        }
    }
    proof {
        assert(lc_view(r@) =~= spec_lc_scale(lc_view(x@), k@));
    }
    r
}

/// Negate every coefficient of a combination.
pub(crate) fn lc_neg(x: &Vec<(usize, Fp)>) -> (r: Vec<(usize, Fp)>)
    requires
        lc_wf(lc_view(x@)),
    ensures
        lc_view(r@) == spec_lc_neg(lc_view(x@)),
{
    let mut r: Vec<(usize, Fp)> = Vec::new();
    let mut i: usize = 0;
    while i < x.len()
        invariant
            i <= x.len(),
            r@.len() == i,
            lc_wf(lc_view(x@)),
            forall|t: int|
                0 <= t < i ==> #[trigger] lc_view(r@)[t] == (x@[t].0 as int, fneg(x@[t].1@)),
        decreases x.len() - i,
    {
        proof {
            assert(lc_view(x@)[i as int] == (x@[i as int].0 as int, x@[i as int].1@));
            crate::field::lemma_fp_props(x@[i as int].1);
        }
        let e = (x[i].0, x[i].1.neg());
        let ghost r0 = r@;
        r.push(e);
        i = i + 1;
        proof {
            assert(lc_view(r@) =~= lc_view(r0).push((e.0 as int, e.1@)));
        }
    }
    proof {
        assert(lc_view(r@) =~= spec_lc_neg(lc_view(x@)));
    }
    r
}

/// Compare two combinations in the canonical order.
fn lc_le(x: &Vec<(usize, Fp)>, y: &Vec<(usize, Fp)>) -> (r: bool)
    ensures
        r == spec_lc_le(lc_view(x@), lc_view(y@)),
{
    let ghost xs = lc_view(x@);
    let ghost ys = lc_view(y@);
    let mut k: usize = 0;
    proof {
        assert(xs.skip(0) =~= xs);
        assert(ys.skip(0) =~= ys);
    }
    loop
        invariant
            k <= x.len(),
            k <= y.len(),
            xs == lc_view(x@),
            ys == lc_view(y@),
            spec_lc_le(xs, ys) == spec_lc_le(xs.skip(k as int), ys.skip(k as int)),
        decreases x.len() - k,
    {
        let ghost xr = xs.skip(k as int);
        let ghost yr = ys.skip(k as int);
        proof {
            if k < x.len() {
                assert(xr[0] == xs[k as int]);
                assert(xr.drop_first() =~= xs.skip(k as int + 1));
                assert(xs[k as int] == (x@[k as int].0 as int, x@[k as int].1@));
            }
            if k < y.len() {
                assert(yr[0] == ys[k as int]);
                assert(yr.drop_first() =~= ys.skip(k as int + 1));
                assert(ys[k as int] == (y@[k as int].0 as int, y@[k as int].1@));
            }
        }
        if k >= x.len() {
            return true;
        }
        if k >= y.len() {
            return false;
        }
        if x[k].0 != y[k].0 {
            return x[k].0 < y[k].0;
        }
        let xc = x[k].1.raw_u64();
        let yc = y[k].1.raw_u64();
        if xc != yc {
            return xc < yc;
        }
        proof {
            crate::field::lemma_fp_injective(x@[k as int].1, y@[k as int].1);
        }
        k = k + 1;
    }
}

/// Classify an expression tree into a rank-1 term.
///
/// Succeeds exactly on trees whose products stay within degree two and
/// whose sums join at most one bilinear product; the result is the
/// canonical term of the tree, which evaluates to the same value as the
/// tree under every witness.
pub fn parse(expr: &Expr) -> (r: Result<Term, ParseError>)
    requires
        expr.wf(),
    ensures
        r is Ok <==> spec_parse(*expr) is Ok,
        r matches Ok(t) ==> spec_parse(*expr) == Ok::<TermV, ParseError>(t@),
        r matches Err(k) ==> spec_parse(*expr) == Err::<TermV, ParseError>(k),
    decreases *expr,
{
    match expr {
        Expr::Coeff(c) => {
            let t = Term { c: *c, lin: Vec::new(), quad: None };
            proof {
                assert(lc_view(t.lin@) =~= Seq::<(int, int)>::empty());
            }
            Ok(t)
        }
        Expr::Idx(i) => {
            let mut lin: Vec<(usize, Fp)> = Vec::new();
            lin.push((*i, Fp::one()));
            let t = Term { c: Fp::zero(), lin, quad: None };
            proof {
                assert(lc_view(t.lin@) =~= seq![(*i as int, 1int)]);
            }
            Ok(t)
        }
        Expr::Add(l, r) => {
            let tl = match parse(l) {
                Ok(t) => t,
                Err(k) => {
                    return Err(k);
                }
            };
            let tr = match parse(r) {
                Ok(t) => t,
                Err(k) => {
                    return Err(k);
                }
            };
            proof {
                lemma_shape_wf(**l);
                lemma_shape_wf(**r);
                crate::field::lemma_fp_props(tl.c);
                crate::field::lemma_fp_props(tr.c);
            }
            if tl.quad.is_some() && tr.quad.is_some() {
                return Err(ParseError::RankOverflow);
            }
            let lin = lc_add(&tl.lin, &tr.lin);
            let c = tl.c.add(tr.c);
            let quad = if tl.quad.is_some() {
                tl.quad
            } else {
                tr.quad
            };
            Ok(Term { c, lin, quad })
        }
        Expr::Sub(l, r) => {
            let tl = match parse(l) {
                Ok(t) => t,
                Err(k) => {
                    return Err(k);
                }
            };
            let tr = match parse(r) {
                Ok(t) => t,
                Err(k) => {
                    return Err(k);
                }
            };
            proof {
                lemma_shape_wf(**l);
                lemma_shape_wf(**r);
                crate::field::lemma_fp_props(tl.c);
                crate::field::lemma_fp_props(tr.c);
            }
            if tl.quad.is_some() && tr.quad.is_some() {
                return Err(ParseError::RankOverflow);
            }
            let neg_lin = lc_neg(&tr.lin);
            let lin = lc_add(&tl.lin, &neg_lin);
            let c = tl.c.sub(tr.c);
            let quad = match tr.quad {
                Some(q) => {
                    proof {
                        crate::field::lemma_fp_props(q.k);
                    }
                    Some(QuadPart { k: q.k.neg(), a: q.a, b: q.b })
                }
                None => tl.quad,
            };
            Ok(Term { c, lin, quad })
        }
        Expr::Mul(l, r) => {
            let tl = match parse(l) {
                Ok(t) => t,
                Err(k) => {
                    return Err(k);
                }
            };
            let tr = match parse(r) {
                Ok(t) => t,
                Err(k) => {
                    return Err(k);
                }
            };
            proof {
                lemma_shape_wf(**l);
                lemma_shape_wf(**r);
                crate::field::lemma_fp_props(tl.c);
                crate::field::lemma_fp_props(tr.c);
            }
            match (tl.quad, tr.quad) {
                (Some(_), Some(_)) => Err(ParseError::DegreeOverflow),
                (Some(q), None) => {
                    if tr.lin.len() == 0 {
                        proof {
                            crate::field::lemma_fp_props(q.k);
                        }
                        let lin = lc_scale(&tl.lin, tr.c);
                        Ok(
                            Term {
                                c: tl.c.mul(tr.c),
                                lin,
                                quad: Some(QuadPart { k: q.k.mul(tr.c), a: q.a, b: q.b }),
                            },
                        )
                    } else {
                        Err(ParseError::DegreeOverflow)
                    }
                }
                (None, Some(q)) => {
                    if tl.lin.len() == 0 {
                        proof {
                            crate::field::lemma_fp_props(q.k);
                        }
                        let lin = lc_scale(&tr.lin, tl.c);
                        Ok(
                            Term {
                                c: tl.c.mul(tr.c),
                                lin,
                                quad: Some(QuadPart { k: q.k.mul(tl.c), a: q.a, b: q.b }),
                            },
                        )
                    } else {
                        Err(ParseError::DegreeOverflow)
                    }
                }
                (None, None) => {
                    if tl.lin.len() == 0 {
                        let lin = lc_scale(&tr.lin, tl.c);
                        Ok(Term { c: tl.c.mul(tr.c), lin, quad: None })
                    } else if tr.lin.len() == 0 {
                        let lin = lc_scale(&tl.lin, tr.c);
                        Ok(Term { c: tl.c.mul(tr.c), lin, quad: None })
                    } else {
                        let sa = lc_scale(&tl.lin, tr.c);
                        let sb = lc_scale(&tr.lin, tl.c);
                        let lin = lc_add(&sa, &sb);
                        let c = tl.c.mul(tr.c);
                        let quad = if lc_le(&tl.lin, &tr.lin) {
                            Some(QuadPart { k: Fp::one(), a: tl.lin, b: tr.lin })
                        } else {
                            Some(QuadPart { k: Fp::one(), a: tr.lin, b: tl.lin })
                        };
                        Ok(Term { c, lin, quad })
                    }
                }
            }
        }
    }
}

} // verus!
