//! The rank-1 constraint system: sparse `(A, B, C)` triples over wire
//! indices, a compiler from classified terms into triples, and the
//! satisfiability check `A.w * B.w == C.w`.

use vstd::prelude::*;
use crate::field::{Fp, P, fadd, fmul, fneg};
use crate::term::{
    Term, TermV, lc_view, lc_eval, lc_wf, lc_bound, lc_sorted, w_ok, term_eval, termv_wf,
    spec_lc_scale, spec_lc_neg, spec_lc_add, lemma_lc_scale_eval, lemma_lc_neg_eval,
    lemma_lc_add_eval, lemma_lc_eval_range, lc_scale, lc_neg, lc_add,
};

verus! {

/// One rank-1 constraint: `(a . w) * (b . w) == c . w`, each side a sparse
/// list of (wire index, coefficient) pairs.
#[derive(Debug)]
pub struct Constraint {
    /// The left factor of the product side.
    pub a: Vec<(usize, Fp)>,
    /// The right factor of the product side.
    pub b: Vec<(usize, Fp)>,
    /// The linear side.
    pub c: Vec<(usize, Fp)>,
}

/// The mathematical model of a constraint.
pub struct ConstraintV {
    /// The left factor.
    pub a: Seq<(int, int)>,
    /// The right factor.
    pub b: Seq<(int, int)>,
    /// The linear side.
    pub c: Seq<(int, int)>,
}

impl Constraint {
    /// The mathematical model of this constraint.
    pub open spec fn view(&self) -> ConstraintV {
        ConstraintV { a: lc_view(self.a@), b: lc_view(self.b@), c: lc_view(self.c@) }
    }
}

/// The constraint holds under witness `w`.
pub open spec fn row_holds(r: ConstraintV, w: Seq<int>) -> bool {
    fmul(lc_eval(r.a, w), lc_eval(r.b, w)) == lc_eval(r.c, w)
}

/// All wire references of the constraint lie below `n`.
pub open spec fn row_bound(r: ConstraintV, n: int) -> bool {
    lc_bound(r.a, n) && lc_bound(r.b, n) && lc_bound(r.c, n)
}

/// All coefficients of the constraint are reduced.
pub open spec fn row_wf(r: ConstraintV) -> bool {
    lc_wf(r.a) && lc_wf(r.b) && lc_wf(r.c)
}

/// Every constraint of the sequence holds under witness `w`.
pub open spec fn rows_hold(rs: Seq<ConstraintV>, w: Seq<int>) -> bool {
    forall|i: int| 0 <= i < rs.len() ==> row_holds(#[trigger] rs[i], w)
}

/// The model of an exec witness vector.
pub open spec fn wit_view(w: Seq<Fp>) -> Seq<int> {
    w.map(|i: int, e: Fp| e@)
}

/// All entries of an exec witness are reduced residues.
pub open spec fn wit_wf(w: Seq<Fp>) -> bool {
    forall|i: int| 0 <= i < w.len() ==> (#[trigger] w[i]).wf()
}

/// Compiling one classified term, equal to zero, into a rank-1 triple.
///
/// A term with a bilinear product routes the scaled left factor to `A`, the
/// right factor to `B`, and the negated linear part (with the negated
/// constant on the `one` wire) to `C`. A term without a product routes its
/// terms (with the constant on the `one` wire) to `A` against the bare
/// `one` wire in `B`; a term with nothing at all becomes the empty row.
pub open spec fn spec_compile(t: TermV, one: int) -> ConstraintV {
    match t.quad {
        Some((k, a, b)) => ConstraintV {
            a: spec_lc_scale(a, k),
            b: b,
            c: if t.c == 0 {
                spec_lc_neg(t.lin)
            } else {
                spec_lc_add(spec_lc_neg(t.lin), seq![(one, fneg(t.c))])
            },
        },
        None => {
            let terms = if t.c == 0 {
                t.lin
            } else {
                spec_lc_add(t.lin, seq![(one, t.c)])
            };
            if terms.len() == 0 {
                ConstraintV { a: Seq::empty(), b: Seq::empty(), c: Seq::empty() }
            } else {
                ConstraintV { a: terms, b: seq![(one, 1int)], c: Seq::empty() }
            }
        },
    }
}

/// A singleton combination evaluates to its coefficient when the wire it
/// references holds one.
proof fn lemma_singleton_one(k: int, one: int, w: Seq<int>)
    requires
        0 <= k < P as int,
        0 <= one < w.len(),
        w[one] == 1,
    ensures
        lc_eval(seq![(one, k)], w) == k,
{
    let l = seq![(one, k)];
    assert(l.len() == 1 && l[0] == (one, k));
    assert(l.drop_first() =~= Seq::<(int, int)>::empty());
    assert(lc_eval(l.drop_first(), w) == 0);
    assert(lc_eval(l, w) == fadd(fmul(k, 1), 0));
    crate::field::lemma_fmul_one(k);
    crate::field::lemma_fadd_zero(k);
}

/// Compilation is exact: under any reduced witness whose `one` wire holds
/// one, the compiled triple is satisfied precisely when the term evaluates
/// to zero.
pub proof fn lemma_compile_row(t: TermV, one: int, w: Seq<int>)
    requires
        termv_wf(t),
        w_ok(w),
        0 <= one < w.len(),
        w[one] == 1,
    ensures
        row_holds(spec_compile(t, one), w) <==> term_eval(t, w) == 0,
{
    let p = P as int;
    let r = spec_compile(t, one);
    let lv = lc_eval(t.lin, w);
    lemma_lc_eval_range(t.lin, w);
    match t.quad {
        Some((k, a, b)) => {
            let av = lc_eval(a, w);
            let bv = lc_eval(b, w);
            let q = fmul(k, fmul(av, bv));
            lemma_lc_scale_eval(a, k, w);
            crate::field::lemma_fmul_assoc(k, av, bv);
            assert(fmul(lc_eval(r.a, w), lc_eval(r.b, w)) == q);
            lemma_lc_neg_eval(t.lin, w);
            let s = fadd(lv, t.c);
            if t.c == 0 {
                assert(lc_eval(r.c, w) == fneg(lv));
                crate::field::lemma_fadd_zero(lv);
                assert(s == lv);
            } else {
                lemma_singleton_one(fneg(t.c), one, w);
                lemma_lc_add_eval(spec_lc_neg(t.lin), seq![(one, fneg(t.c))], w);
                assert(lc_eval(r.c, w) == fadd(fneg(lv), fneg(t.c)));
                crate::field::lemma_fneg_fadd(lv, t.c);
                assert(lc_eval(r.c, w) == fneg(s));
            }
            crate::field::lemma_f_range(k * fmul(av, bv));
            crate::field::lemma_f_range(lv + t.c);
            crate::field::lemma_fadd_zero_iff_fneg(q, s);
            assert(term_eval(t, w) == fadd(q, s));
            if t.c == 0 {
                crate::field::lemma_f_range(0 - lv);
                assert(fneg(s) == fneg(lv));
            }
        }
        None => {
            assert(term_eval(t, w) == fadd(lv, t.c));
            let s = fadd(lv, t.c);
            if t.c == 0 {
                crate::field::lemma_fadd_zero(lv);
                assert(s == lv);
                if t.lin.len() == 0 {
                    assert(lc_eval(r.a, w) == 0);
                    assert(lc_eval(r.b, w) == 0);
                    assert(lc_eval(r.c, w) == 0);
                    crate::field::lemma_fmul_zero(0);
                    assert(lv == 0);
                } else {
                    lemma_singleton_one(1, one, w);
                    assert(lc_eval(r.b, w) == 1);
                    crate::field::lemma_fmul_one(lv);
                    assert(fmul(lc_eval(r.a, w), lc_eval(r.b, w)) == lv);
                    assert(lc_eval(r.c, w) == 0);
                }
            } else {
                let terms = spec_lc_add(t.lin, seq![(one, t.c)]);
                crate::term::lemma_lc_add_len(t.lin, seq![(one, t.c)]);
                assert(terms.len() > 0);
                lemma_singleton_one(t.c, one, w);
                lemma_lc_add_eval(t.lin, seq![(one, t.c)], w);
                assert(lc_eval(r.a, w) == s);
                lemma_singleton_one(1, one, w);
                assert(lc_eval(r.b, w) == 1);
                crate::field::lemma_f_range(lv + t.c);
                crate::field::lemma_fmul_one(s);
                assert(fmul(lc_eval(r.a, w), lc_eval(r.b, w)) == s);
                assert(lc_eval(r.c, w) == 0);
            }
        }
    }
}

/// The compiled triple references only allocated wires and carries only
/// reduced coefficients, given a canonically shaped term.
pub proof fn lemma_compile_bound_wf(t: TermV, one: int, n: int)
    requires
        termv_wf(t),
        lc_sorted(t.lin),
        lc_bound(t.lin, n),
        t.quad matches Some((k, a, b)) ==> lc_sorted(a) && lc_sorted(b) && lc_bound(a, n)
            && lc_bound(b, n),
        0 <= one < n,
    ensures
        row_bound(spec_compile(t, one), n),
        row_wf(spec_compile(t, one)),
{
    let p = P as int;
    crate::term::lemma_lc_map_props(t.lin, 0);
    match t.quad {
        Some((k, a, b)) => {
            crate::term::lemma_lc_map_props(a, k);
            if t.c != 0 {
                crate::field::lemma_f_range(0 - t.c);
                crate::term::lemma_lc_add_props(spec_lc_neg(t.lin), seq![(one, fneg(t.c))]);
                assert(lc_bound(seq![(one, fneg(t.c))], n));
                assert(lc_wf(seq![(one, fneg(t.c))]));
                assert(lc_bound(spec_lc_neg(t.lin), n));
                assert(lc_bound(
                    spec_lc_add(spec_lc_neg(t.lin), seq![(one, fneg(t.c))]),
                    n,
                ));
            } else {
                assert(lc_bound(spec_lc_neg(t.lin), n));
            }
            assert(lc_bound(spec_lc_scale(a, k), n));
        }
        None => {
            if t.c != 0 {
                crate::term::lemma_lc_add_props(t.lin, seq![(one, t.c)]);
                assert(lc_bound(seq![(one, t.c)], n));
                assert(lc_wf(seq![(one, t.c)]));
                assert(lc_bound(spec_lc_add(t.lin, seq![(one, t.c)]), n));
            }
            assert(lc_bound(seq![(one, 1int)], n));
            assert(lc_wf(seq![(one, 1int)]));
            assert(lc_bound(Seq::<(int, int)>::empty(), n));
            assert(lc_wf(Seq::<(int, int)>::empty()));
        }
    }
}

impl Constraint {
    /// An empty, trivially satisfied constraint.
    pub fn empty() -> (r: Constraint)
        ensures
            r@.a.len() == 0,
            r@.b.len() == 0,
            r@.c.len() == 0,
    {
        let r = Constraint { a: Vec::new(), b: Vec::new(), c: Vec::new() };
        proof {
            assert(lc_view(r.a@) =~= Seq::<(int, int)>::empty());
            assert(lc_view(r.b@) =~= Seq::<(int, int)>::empty());
            assert(lc_view(r.c@) =~= Seq::<(int, int)>::empty());
        }
        r
    }
}

/// Compile one classified zero-term into a rank-1 constraint, against the
/// given index of the constant-one wire.
pub fn compile(t: Term, one: usize) -> (r: Constraint)
    requires
        termv_wf(t@),
    ensures
        r@ == spec_compile(t@, one as int),
{
    let c_is_zero = t.c.is_zero();
    match t.quad {
        Some(q) => {
            proof {
                crate::field::lemma_fp_props(q.k);
                crate::field::lemma_fp_props(t.c);
            }
            let a = lc_scale(&q.a, q.k);
            let neg_lin = lc_neg(&t.lin);
            let c = if c_is_zero {
                neg_lin
            } else {
                let mut single: Vec<(usize, Fp)> = Vec::new();
                single.push((one, t.c.neg()));
                proof {
                    assert(lc_view(single@) =~= seq![(one as int, fneg(t.c@))]);
                }
                lc_add(&neg_lin, &single)
            };
            let r = Constraint { a, b: q.b, c };
            proof {
                assert(r@.a == spec_compile(t@, one as int).a);
                assert(r@.b == spec_compile(t@, one as int).b);
                assert(r@.c == spec_compile(t@, one as int).c);
            }
            r
        }
        None => {
            proof {
                crate::field::lemma_fp_props(t.c);
            }
            let terms = if c_is_zero {
                t.lin
            } else {
                let mut single: Vec<(usize, Fp)> = Vec::new();
                single.push((one, t.c));
                proof {
                    assert(lc_view(single@) =~= seq![(one as int, t.c@)]);
                }
                lc_add(&t.lin, &single)
            };
            if terms.len() == 0 {
                let r = Constraint::empty();
                proof {
                    assert(r@.a =~= spec_compile(t@, one as int).a);
                    assert(r@.b =~= spec_compile(t@, one as int).b);
                    assert(r@.c =~= spec_compile(t@, one as int).c);
                }
                r
            } else {
                let mut b: Vec<(usize, Fp)> = Vec::new();
                b.push((one, Fp::one()));
                proof {
                    assert(lc_view(b@) =~= seq![(one as int, 1int)]);
                }
                let r = Constraint { a: terms, b, c: Vec::new() };
                proof {
                    assert(r@.a == spec_compile(t@, one as int).a);
                    assert(r@.b == spec_compile(t@, one as int).b);
                    assert(r@.c =~= spec_compile(t@, one as int).c);
                }
                r
            }
        }
    }
}

/// An ordered rank-1 constraint system.
#[derive(Debug)]
pub struct R1CS(pub Vec<Constraint>);

impl R1CS {
    /// The mathematical model of this system.
    pub open spec fn view(&self) -> Seq<ConstraintV> {
        self.0@.map(|i: int, c: Constraint| c@)
    }

    /// The number of constraints, padding included.
    pub fn num_of_constraints(&self) -> (r: usize)
        ensures
            r == self@.len(),
    {
        self.0.len()
    }

    /// Whether the witness `[x, w]` (public inputs first) satisfies every
    /// constraint.
    pub fn is_satisfied(&self, x: &Vec<Fp>, w: &Vec<Fp>) -> (r: bool)
        requires
            wit_wf(x@ + w@),
            forall|i: int|
                0 <= i < self@.len() ==> row_bound(#[trigger] self@[i], x@.len() + w@.len() as int),
            forall|i: int| 0 <= i < self@.len() ==> row_wf(#[trigger] self@[i]),
        ensures
            r == rows_hold(self@, wit_view(x@ + w@)),
    {
        let ghost wv = wit_view(x@ + w@);
        let mut full: Vec<Fp> = Vec::new();
        let mut i: usize = 0;
        while i < x.len()
            invariant
                i <= x.len(),
                full@ == x@.subrange(0, i as int),
            decreases x.len() - i,
        {
            let ghost f0 = full@;
            full.push(x[i]);
            i = i + 1;
            proof {
                assert(full@ =~= x@.subrange(0, i as int));
            }
        }
        let mut j: usize = 0;
        proof {
            assert(full@ =~= x@);
        }
        while j < w.len()
            invariant
                j <= w.len(),
                full@ == x@ + w@.subrange(0, j as int),
            decreases w.len() - j,
        {
            full.push(w[j]);
            j = j + 1;
            proof {
                assert(full@ =~= x@ + w@.subrange(0, j as int));
            }
        }
        proof {
            assert(full@ =~= x@ + w@);
        }
        let mut k: usize = 0;
        let mut ok = true;
        while k < self.0.len()
            invariant
                k <= self.0.len(),
                full@ == x@ + w@,
                wit_wf(full@),
                wv == wit_view(full@),
                forall|i: int|
                    0 <= i < self@.len() ==> row_bound(#[trigger] self@[i], full@.len() as int),
                forall|i: int| 0 <= i < self@.len() ==> row_wf(#[trigger] self@[i]),
                ok == (forall|i: int| 0 <= i < k ==> row_holds(#[trigger] self@[i], wv)),
            decreases self.0.len() - k,
        {
            proof {
                assert(self@[k as int] == self.0@[k as int]@);
            }
            let row = &self.0[k];
            let av = lc_dot(&row.a, &full);
            let bv = lc_dot(&row.b, &full);
            let cv = lc_dot(&row.c, &full);
            let prod = av.mul(bv);
            let row_ok = prod.raw_u64() == cv.raw_u64();
            proof {
                assert(row_ok == (prod@ == cv@));
                assert(row_ok == row_holds(self@[k as int], wv));
            }
            ok = ok && row_ok;
            k = k + 1;
        }
        ok
    }
}

/// The number is a power of two.
pub open spec fn is_pow2(n: nat) -> bool
    decreases n,
{
    if n == 0 {
        false
    } else if n == 1 {
        true
    } else {
        n % 2 == 0 && is_pow2(n / 2)
    }
}

/// Two powers of two within a factor of two of each other are equal.
proof fn lemma_pow2_unique(a: nat, b: nat)
    requires
        is_pow2(a),
        is_pow2(b),
        a <= b < 2 * a,
    ensures
        a == b,
    decreases a,
{
    if a > 1 {
        lemma_pow2_unique(a / 2, b / 2);
    }
}

impl R1CS {
    /// Append trivially satisfied empty constraints until the number of
    /// constraints is the next power of two; a system that already has a
    /// power-of-two size is left unchanged.
    pub fn pad_to_next_power_of_2(&mut self)
        requires
            old(self)@.len() <= usize::MAX / 2,
        ensures
            is_pow2(final(self)@.len() as nat),
            final(self)@.len() >= old(self)@.len(),
            old(self)@.len() > 0 ==> final(self)@.len() < 2 * old(self)@.len(),
            old(self)@.len() == 0 ==> final(self)@.len() == 1,
            is_pow2(old(self)@.len() as nat) ==> final(self)@ == old(self)@,
            forall|i: int|
                0 <= i < old(self)@.len() ==> #[trigger] final(self)@[i] == old(self)@[i],
            forall|i: int|
                old(self)@.len() <= i < final(self)@.len() ==> (#[trigger] final(self)@[i]).a.len() == 0
                    && final(self)@[i].b.len() == 0 && final(self)@[i].c.len() == 0,
    {
        let ghost rows0 = self.0@;
        let len = self.0.len();
        let mut m: usize = 1;
        while m < len
            invariant
                len == self.0.len(),
                is_pow2(m as nat),
                len > 0 ==> m < 2 * len,
                len == 0 ==> m == 1,
                len <= usize::MAX / 2,
            decreases 2 * len - m,
        {
            m = m * 2;
        }
        proof {
            if is_pow2(len as nat) {
                lemma_pow2_unique(len as nat, m as nat);
            }
        }
        while self.0.len() < m
            invariant
                self.0@.len() <= m,
                self.0@.len() >= rows0.len(),
                forall|i: int| 0 <= i < rows0.len() ==> #[trigger] self.0@[i] == rows0[i],
                forall|i: int|
                    rows0.len() <= i < self.0@.len() ==> (#[trigger] self.0@[i])@.a.len() == 0
                        && self.0@[i]@.b.len() == 0 && self.0@[i]@.c.len() == 0,
            decreases m - self.0.len(),
        {
            self.0.push(Constraint::empty());
        }
        proof {
            assert(forall|i: int|
                0 <= i < self@.len() ==> #[trigger] self@[i] == self.0@[i]@);
            assert(forall|i: int|
                0 <= i < rows0.len() ==> #[trigger] self@[i] == rows0[i]@);
            if is_pow2(rows0.len() as nat) {
                assert(self.0@ =~= rows0);
                assert(self@ =~= rows0.map(|i: int, c: Constraint| c@));
            }
        }
    }
}

/// The compiled triple keeps every side sorted by wire index, given a
/// canonically shaped term.
pub proof fn lemma_compile_sorted(t: TermV, one: int)
    requires
        lc_sorted(t.lin),
        t.quad matches Some((k, a, b)) ==> lc_sorted(a) && lc_sorted(b),
    ensures
        lc_sorted(spec_compile(t, one).a),
        lc_sorted(spec_compile(t, one).b),
        lc_sorted(spec_compile(t, one).c),
{
    crate::term::lemma_lc_map_props(t.lin, 0);
    match t.quad {
        Some((k, a, b)) => {
            crate::term::lemma_lc_map_props(a, k);
            if t.c != 0 {
                crate::term::lemma_lc_add_props(spec_lc_neg(t.lin), seq![(one, fneg(t.c))]);
            }
        }
        None => {
            if t.c != 0 {
                crate::term::lemma_lc_add_props(t.lin, seq![(one, t.c)]);
            }
        }
    }
}

/// The dot product of a sparse combination with the witness vector.
fn lc_dot(l: &Vec<(usize, Fp)>, w: &Vec<Fp>) -> (r: Fp)
    requires
        lc_wf(lc_view(l@)),
        lc_bound(lc_view(l@), w@.len() as int),
        wit_wf(w@),
    ensures
        r.wf(),
        r@ == lc_eval(lc_view(l@), wit_view(w@)),
{
    let ghost ls = lc_view(l@);
    let ghost wv = wit_view(w@);
    let mut acc = Fp::zero();
    let mut i: usize = l.len();
    proof {
        assert(ls.skip(i as int) =~= Seq::<(int, int)>::empty());
    }
    while i > 0
        invariant
            i <= l.len(),
            ls == lc_view(l@),
            wv == wit_view(w@),
            lc_wf(ls),
            lc_bound(ls, w@.len() as int),
            wit_wf(w@),
            acc.wf(),
            acc@ == lc_eval(ls.skip(i as int), wv),
        decreases i,
    {
        i = i - 1;
        proof {
            assert(ls[i as int] == (l@[i as int].0 as int, l@[i as int].1@));
            assert(ls.skip(i as int)[0] == ls[i as int]);
            assert(ls.skip(i as int).drop_first() =~= ls.skip(i as int + 1));
            crate::field::lemma_fp_props(l@[i as int].1);
            assert(wv[l@[i as int].0 as int] == w@[l@[i as int].0 as int]@);
            crate::field::lemma_fp_props(w@[l@[i as int].0 as int]);
        }
        let (idx, coeff) = l[i];
        let term = coeff.mul(w[idx]);
        acc = term.add(acc);
    }
    proof {
        assert(ls.skip(0) =~= ls);
    }
    acc
}

} // verus!
