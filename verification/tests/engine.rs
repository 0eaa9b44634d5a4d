use cswire::cs::{CSWire, Mode, ToRaw};
use cswire::field::{Fp, P};
use cswire::utils::{enforce_bits, is_zero, pow};

fn fp(n: u64) -> Fp {
    Fp::from_u64(n)
}

#[test]
fn test_coeff() {}

#[test]
fn test_fibonacci() {
    let mut cs = CSWire::new(Mode::Compile);

    let i = cs.allocate(fp(1));
    let b0 = i.duplicate();
    let t = b0.mul_u64(3).mul(&b0).sub_lin(&b0).mul_u64(5);
    let b = cs.wire(&t);

    assert_eq!(b.raw().raw_u64(), 10);

    let (x, w, r1cs) = cs.finish(&vec![b.to_qua()]);
    let r1cs = r1cs.unwrap();
    assert!(r1cs.is_satisfied(&x, &w));
    assert_eq!(x[0].raw_u64(), 1);
    assert_eq!(x[1].raw_u64(), 10);
}

#[test]
fn test_binary_add() {
    let mut cs = CSWire::new(Mode::Compile);
    let a = fp(10);
    let b = fp(11);
    let la = cs.allocate(a);
    let lb = cs.allocate(b);
    let c = la.add(&lb);
    assert!(a.add(b) == c.raw());
}

#[test]
fn field_ops() {
    assert_eq!(fp(3).add(fp(4)).raw_u64(), 7);
    assert_eq!(fp(P - 1).add(fp(5)).raw_u64(), 4);
    assert_eq!(fp(3).sub(fp(5)).raw_u64(), P - 2);
    assert_eq!(fp(1000000).mul(fp(1000000)).raw_u64(), 1000000000000);
    assert_eq!(fp(0).neg().raw_u64(), 0);
    assert_eq!(fp(7).neg().raw_u64(), P - 7);
    assert_eq!(fp(3).pow_u64(5).raw_u64(), 243);
    assert_eq!(fp(2).pow_u64(0).raw_u64(), 1);
    // a nonzero element times its computed inverse
    let v = fp(123456789);
    assert_eq!(v.mul(v.pow_u64(P - 2)).raw_u64(), 1);
}

#[test]
fn permutation_prefix() {
    // P3: the wired I/O values, with the one wire first, form the public
    // prefix, and satisfiability carries across the permutation.
    let mut cs = CSWire::new(Mode::Compile);
    let a = cs.allocate(fp(7));
    let b = cs.allocate(fp(9));
    let c = cs.wire(&a.mul(&b));
    assert_eq!(c.raw().raw_u64(), 63);

    let (x, w, r1cs) = cs.finish(&vec![c.to_qua(), a.to_qua()]);
    let r1cs = r1cs.unwrap();
    assert_eq!(x.len(), 3);
    assert_eq!(x[0].raw_u64(), 1);
    assert_eq!(x[1].raw_u64(), 63);
    assert_eq!(x[2].raw_u64(), 7);
    assert_eq!(x.len() + w.len(), 6);
    assert!(r1cs.is_satisfied(&x, &w));
}

#[test]
fn empty_io_round_trip() {
    // P1: a mix of allocate/wire/equal calls compiles to a satisfied system.
    let mut cs = CSWire::new(Mode::Compile);
    let a = cs.allocate(fp(5));
    let b = cs.allocate(fp(6));
    let s = cs.wire(&a.add(&b).to_qua());
    let p = cs.wire(&a.mul(&b));
    let target = cs.allocate(fp(330));
    cs.equal(&s.mul(&p), &target);
    let (x, w, r1cs) = cs.finish(&Vec::new());
    let r1cs = r1cs.unwrap();
    assert_eq!(x.len(), 1);
    assert!(r1cs.is_satisfied(&x, &w));
}

#[test]
fn unequal_assertion_is_unsatisfied() {
    let mut cs = CSWire::new(Mode::Compile);
    let a = cs.allocate(fp(2));
    let wrong = cs.allocate(fp(5));
    cs.equal(&a.mul(&a), &wrong);
    let (x, w, r1cs) = cs.finish(&Vec::new());
    assert!(!r1cs.unwrap().is_satisfied(&x, &w));
}

#[test]
fn bit_enforcement() {
    // P6: (1-b)*b == 0 passes for 0 and 1 and fails for any other value.
    for v in [0u64, 1] {
        let mut cs = CSWire::new(Mode::Compile);
        let b = cs.allocate(fp(v));
        enforce_bits(&mut cs, &vec![b]);
        let (x, w, r1cs) = cs.finish(&Vec::new());
        assert!(r1cs.unwrap().is_satisfied(&x, &w));
    }
    let mut cs = CSWire::new(Mode::Compile);
    let b = cs.allocate(fp(2));
    enforce_bits(&mut cs, &vec![b]);
    let (x, w, r1cs) = cs.finish(&Vec::new());
    let r1cs = r1cs.unwrap();
    assert_eq!(r1cs.num_of_constraints(), 1);
    assert!(!r1cs.is_satisfied(&x, &w));
}

#[test]
fn is_zero_gadget() {
    let mut cs = CSWire::new(Mode::Compile);
    let v = cs.allocate(fp(5));
    let q = is_zero(&mut cs, &v);
    assert_eq!(q.raw().raw_u64(), 0);
    let z = cs.allocate(fp(0));
    let qz = is_zero(&mut cs, &z);
    assert_eq!(qz.raw().raw_u64(), 1);
    let (x, w, r1cs) = cs.finish(&Vec::new());
    let r1cs = r1cs.unwrap();
    // each gadget allocates q and z and records two constraints
    assert_eq!(x.len() + w.len(), 7);
    assert_eq!(r1cs.num_of_constraints(), 4);
    assert!(r1cs.is_satisfied(&x, &w));
}

#[test]
fn committed_pow() {
    let mut cs = CSWire::new(Mode::Compile);
    let base = cs.allocate(fp(3));
    let r = pow(&mut cs, base, 5);
    assert_eq!(r.raw().raw_u64(), 243);
    let (x, w, r1cs) = cs.finish(&Vec::new());
    let r1cs = r1cs.unwrap();
    // one wire, the base, and five committed wires: two squarings and the
    // two odd-bit multiplies plus the final squaring of the last bit
    assert_eq!(x.len() + w.len(), 7);
    assert_eq!(r1cs.num_of_constraints(), 5);
    assert!(r1cs.is_satisfied(&x, &w));
}

#[test]
fn constant_is_one_scaled() {
    // P8: constant(v) equals one() * v in value and in expression shape,
    // also after the one wire is redefined.
    let mut cs = CSWire::new(Mode::Compile);
    let c1 = cs.constant(fp(5));
    let c2 = cs.one().mul_fp(fp(5));
    assert_eq!(c1.raw().raw_u64(), 5);
    assert_eq!(format!("{:?}", c1.expr), format!("{:?}", c2.expr));

    let s = cs.allocate(fp(0));
    let _old = cs.set_one(&s);
    let c3 = cs.constant(fp(5));
    let c4 = cs.one().mul_fp(fp(5));
    assert_eq!(c3.raw().raw_u64(), 0);
    assert_eq!(format!("{:?}", c3.expr), format!("{:?}", c4.expr));
}

#[test]
fn set_one_returns_previous() {
    let mut cs = CSWire::new(Mode::Compile);
    let s = cs.allocate(fp(1));
    let old = cs.set_one(&s);
    assert_eq!(old.raw().raw_u64(), 1);
    let restored = cs.set_one(&old);
    assert_eq!(restored.raw().raw_u64(), 1);
}

#[test]
fn run_mode_records_nothing() {
    let mut cs = CSWire::new(Mode::Run);
    let a = cs.allocate(fp(2));
    let _ = cs.wire(&a.mul(&a));
    let (x, w, r1cs) = cs.finish(&Vec::new());
    assert!(r1cs.is_none());
    assert_eq!(x.len() + w.len(), 3);
}

#[test]
fn zero_has_value_zero() {
    let cs = CSWire::new(Mode::Compile);
    assert_eq!(cs.zero().raw().raw_u64(), 0);
    assert_eq!(cs.one().raw().raw_u64(), 1);
}
