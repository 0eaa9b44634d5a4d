use cswire::cs::{Lin, Qua, ToExpr, ToRaw};
use cswire::expr::Expr;
use cswire::field::Fp;
use cswire::term::{parse, ParseError, Term};

fn lin(val: u64) -> Lin {
    Lin::new(Fp::from_u64(val), val as usize)
}

fn qua(val: u64) -> Qua {
    Lin::coeff(Fp::from_u64(val)).to_qua()
}

fn lc_eq(x: &Vec<(usize, Fp)>, y: &Vec<(usize, Fp)>) -> bool {
    if x.len() != y.len() {
        return false;
    }
    for i in 0..x.len() {
        if x[i].0 != y[i].0 || x[i].1.raw_u64() != y[i].1.raw_u64() {
            return false;
        }
    }
    true
}

fn term_eq(a: &Term, b: &Term) -> bool {
    if a.c.raw_u64() != b.c.raw_u64() || !lc_eq(&a.lin, &b.lin) {
        return false;
    }
    match (&a.quad, &b.quad) {
        (None, None) => true,
        (Some(qa), Some(qb)) => {
            qa.k.raw_u64() == qb.k.raw_u64() && lc_eq(&qa.a, &qb.a) && lc_eq(&qa.b, &qb.b)
        }
        _ => false,
    }
}

#[test]
fn lin_add_sub() {
    let a = lin(5);
    let b = lin(3);
    assert_eq!(a.add(&b).raw().raw_u64(), 8);
    assert_eq!(a.sub(&b).raw().raw_u64(), 2);
}

#[test]
fn lin_mul_qua_symmetry() {
    let a = lin(7);
    let b = lin(2);
    let ab = a.mul(&b);
    let ba = b.mul(&a);
    assert_eq!(ab.raw().raw_u64(), 14);
    assert_eq!(ba.raw().raw_u64(), ab.raw().raw_u64());
    // the classified bilinear parts agree, pair orientation included
    let ta = parse(&ab.expr()).unwrap();
    let tb = parse(&ba.expr()).unwrap();
    assert!(term_eq(&ta, &tb));
}

#[test]
fn scalar_ops() {
    let x = lin(11);
    assert_eq!(x.mul_u64(3).raw().raw_u64(), 33);
    assert_eq!(x.mul_fp(Fp::from_u64(3)).raw().raw_u64(), 33);

    let q = qua(4);
    assert_eq!(q.mul_u64(5).raw().raw_u64(), 20);
}

#[test]
fn references_work() {
    let a = lin(9);
    let b = lin(4);
    assert_eq!(a.add(&b).raw().raw_u64(), 13);
    assert_eq!(a.mul(&b).raw().raw_u64(), 36);

    let q = qua(6);
    let r = q.add_lin(&a);
    assert_eq!(r.raw().raw_u64(), 15);
}

#[test]
fn classification_commutes() {
    // P4: classifying a + b and b + a yields the same canonical term.
    let a = lin(3).add(&lin(5)).expr;
    let b = lin(5).mul_u64(7).expr;
    let ab = parse(&Expr::Add(Box::new(a.duplicate()), Box::new(b.duplicate()))).unwrap();
    let ba = parse(&Expr::Add(Box::new(b), Box::new(a))).unwrap();
    assert!(term_eq(&ab, &ba));
}

#[test]
fn degree_overflow_is_rejected() {
    // P2: a product of three wires cannot be classified.
    let e = Expr::Mul(
        Box::new(Expr::Mul(Box::new(Expr::Idx(0)), Box::new(Expr::Idx(1)))),
        Box::new(Expr::Idx(2)),
    );
    assert!(matches!(parse(&e), Err(ParseError::DegreeOverflow)));
}

#[test]
fn sum_of_products_is_rejected() {
    let e = Expr::Add(
        Box::new(Expr::Mul(Box::new(Expr::Idx(0)), Box::new(Expr::Idx(1)))),
        Box::new(Expr::Mul(Box::new(Expr::Idx(2)), Box::new(Expr::Idx(3)))),
    );
    assert!(matches!(parse(&e), Err(ParseError::RankOverflow)));
}

#[test]
fn affine_product_classifies() {
    // (x0 + 2) * (x1 + 3) = x0*x1 + 3*x0 + 2*x1 + 6
    let lhs = Expr::Add(Box::new(Expr::Idx(0)), Box::new(Expr::Coeff(Fp::from_u64(2))));
    let rhs = Expr::Add(Box::new(Expr::Idx(1)), Box::new(Expr::Coeff(Fp::from_u64(3))));
    let t = parse(&Expr::Mul(Box::new(lhs), Box::new(rhs))).unwrap();
    assert_eq!(t.c.raw_u64(), 6);
    assert_eq!(t.lin.len(), 2);
    assert_eq!(t.lin[0].0, 0);
    assert_eq!(t.lin[0].1.raw_u64(), 3);
    assert_eq!(t.lin[1].0, 1);
    assert_eq!(t.lin[1].1.raw_u64(), 2);
    let q = t.quad.unwrap();
    assert_eq!(q.k.raw_u64(), 1);
    assert_eq!(q.a.len(), 1);
    assert_eq!(q.a[0].0, 0);
    assert_eq!(q.b[0].0, 1);
}

#[test]
fn coefficients_accumulate() {
    // x0 + x0 merges into one entry with coefficient 2
    let e = Expr::Add(Box::new(Expr::Idx(0)), Box::new(Expr::Idx(0)));
    let t = parse(&e).unwrap();
    assert_eq!(t.lin.len(), 1);
    assert_eq!(t.lin[0].1.raw_u64(), 2);
}

#[test]
fn coefficient_constructor() {
    let e = Expr::coefficient(Fp::from_u64(9));
    let t = parse(&e).unwrap();
    assert_eq!(t.c.raw_u64(), 9);
    assert_eq!(t.lin.len(), 0);
    assert!(t.quad.is_none());
}
