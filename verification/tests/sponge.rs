use cswire::cs::{CSWire, Lin, Mode, ToRaw};
use cswire::field::Fp;
use cswire::poseidon::{DuplexSpongeMode, Poseidon, PoseidonConfig};
use cswire::r1cs::R1CS;

fn fp(n: u64) -> Fp {
    Fp::from_u64(n)
}

fn small_config() -> PoseidonConfig {
    // rate 2, capacity 1, 2 full rounds around 1 partial round, cubic S-box
    let t = 3usize;
    let rounds = 3usize;
    let mut ark: Vec<Vec<Fp>> = Vec::new();
    for r in 0..rounds {
        let mut row: Vec<Fp> = Vec::new();
        for c in 0..t {
            row.push(fp((7 * r + c + 1) as u64));
        }
        ark.push(row);
    }
    let mut mds: Vec<Vec<Fp>> = Vec::new();
    for r in 0..t {
        let mut row: Vec<Fp> = Vec::new();
        for c in 0..t {
            row.push(fp((r + c + 2) as u64));
        }
        mds.push(row);
    }
    PoseidonConfig {
        full_rounds: 2,
        partial_rounds: 1,
        alpha: 3,
        ark,
        mds,
        rate: 2,
        capacity: 1,
    }
}

fn inputs(cs: &mut CSWire, vals: &[u64]) -> Vec<Lin> {
    let mut out: Vec<Lin> = Vec::new();
    for v in vals {
        out.push(cs.allocate(fp(*v)));
    }
    out
}

#[test]
fn config_dimension_check() {
    let good = small_config();
    assert!(good.dims_ok());
    let mut bad = small_config();
    bad.mds.pop();
    assert!(!bad.dims_ok());
}

#[test]
fn absorb_then_squeeze_permutes_once() {
    // P7: absorbing exactly `rate` elements then squeezing `rate` elements
    // triggers exactly one permutation.
    let mut cs = CSWire::new(Mode::Compile);
    let cfg = small_config();
    assert!(cfg.dims_ok());
    let mut sponge = Poseidon::new(&cs, cfg);
    let input = inputs(&mut cs, &[4, 5]);
    sponge.absorb(&mut cs, &input);
    assert_eq!(sponge.permutations, 0);
    // the rate region (after one capacity slot) took the absorbed values
    assert_eq!(sponge.state[1].raw().raw_u64(), 4);
    assert_eq!(sponge.state[2].raw().raw_u64(), 5);
    assert!(matches!(
        sponge.mode,
        DuplexSpongeMode::Absorbing { next_absorb_index: 2 }
    ));
    let out = sponge.squeeze(&mut cs, 2);
    assert_eq!(out.len(), 2);
    assert_eq!(sponge.permutations, 1);
    assert!(matches!(
        sponge.mode,
        DuplexSpongeMode::Squeezing { next_squeeze_index: 2 }
    ));
}

#[test]
fn overfull_absorb_permutes_once_midway() {
    // P7: absorbing rate+1 elements permutes once when the rate region
    // fills, and leaves one element in the next block.
    let mut cs = CSWire::new(Mode::Compile);
    let cfg = small_config();
    let mut sponge = Poseidon::new(&cs, cfg);
    let input = inputs(&mut cs, &[4, 5, 6]);
    sponge.absorb(&mut cs, &input);
    assert_eq!(sponge.permutations, 1);
    assert!(matches!(
        sponge.mode,
        DuplexSpongeMode::Absorbing { next_absorb_index: 1 }
    ));
}

#[test]
fn squeeze_copies_rate_slots() {
    let mut cs = CSWire::new(Mode::Compile);
    let cfg = small_config();
    let mut sponge = Poseidon::new(&cs, cfg);
    let input = inputs(&mut cs, &[4, 5]);
    sponge.absorb(&mut cs, &input);
    let first = sponge.squeeze(&mut cs, 1);
    assert_eq!(first[0].raw().raw_u64(), sponge.state[1].raw().raw_u64());
    // squeezing again, still inside the rate region, copies the next slot
    let second = sponge.squeeze(&mut cs, 1);
    assert_eq!(sponge.permutations, 1);
    assert_eq!(second[0].raw().raw_u64(), sponge.state[2].raw().raw_u64());
}

#[test]
fn split_absorb_agrees_with_one_call() {
    // absorbing a block and the overflow element in one call equals
    // absorbing them in two calls: the permutation runs at the same point
    let mut cs1 = CSWire::new(Mode::Compile);
    let mut sp1 = Poseidon::new(&cs1, small_config());
    let input1 = inputs(&mut cs1, &[10, 20, 30]);
    sp1.absorb(&mut cs1, &input1);

    let mut cs2 = CSWire::new(Mode::Compile);
    let mut sp2 = Poseidon::new(&cs2, small_config());
    let input2 = inputs(&mut cs2, &[10, 20, 30]);
    let head = vec![input2[0].duplicate(), input2[1].duplicate()];
    let tail = vec![input2[2].duplicate()];
    sp2.absorb(&mut cs2, &head);
    sp2.absorb(&mut cs2, &tail);

    assert_eq!(sp1.permutations, sp2.permutations);
    for i in 0..sp1.state.len() {
        assert_eq!(sp1.state[i].raw().raw_u64(), sp2.state[i].raw().raw_u64());
    }
}

#[test]
fn absorbing_nothing_changes_nothing() {
    let mut cs = CSWire::new(Mode::Compile);
    let cfg = small_config();
    let mut sponge = Poseidon::new(&cs, cfg);
    let empty: Vec<Lin> = Vec::new();
    sponge.absorb(&mut cs, &empty);
    assert_eq!(sponge.permutations, 0);
    assert!(matches!(
        sponge.mode,
        DuplexSpongeMode::Absorbing { next_absorb_index: 0 }
    ));
}

#[test]
fn sponge_circuit_is_satisfied() {
    let mut cs = CSWire::new(Mode::Compile);
    let cfg = small_config();
    let mut sponge = Poseidon::new(&cs, cfg);
    let input = inputs(&mut cs, &[10, 20, 30]);
    sponge.absorb(&mut cs, &input);
    let out = sponge.squeeze(&mut cs, 1);
    let (x, w, r1cs) = cs.finish(&vec![out[0].to_qua()]);
    let r1cs = r1cs.unwrap();
    assert!(r1cs.num_of_constraints() > 0);
    assert!(r1cs.is_satisfied(&x, &w));
    assert_eq!(x[1].raw_u64(), out[0].raw().raw_u64());
}

#[test]
fn padding_to_power_of_two() {
    let mut cs = CSWire::new(Mode::Compile);
    let a = cs.allocate(fp(2));
    let _ = cs.wire(&a.mul(&a));
    let _ = cs.wire(&a.mul(&a));
    let _ = cs.wire(&a.mul(&a));
    let (x, w, r1cs) = cs.finish(&Vec::new());
    let mut r1cs: R1CS = r1cs.unwrap();
    assert_eq!(r1cs.num_of_constraints(), 3);
    r1cs.pad_to_next_power_of_2();
    assert_eq!(r1cs.num_of_constraints(), 4);
    assert!(r1cs.is_satisfied(&x, &w));
    r1cs.pad_to_next_power_of_2();
    assert_eq!(r1cs.num_of_constraints(), 4);
}

#[test]
fn padding_empty_system() {
    let cs = CSWire::new(Mode::Compile);
    let (_x, _w, r1cs) = cs.finish(&Vec::new());
    let mut r1cs = r1cs.unwrap();
    assert_eq!(r1cs.num_of_constraints(), 0);
    r1cs.pad_to_next_power_of_2();
    assert_eq!(r1cs.num_of_constraints(), 1);
}

#[test]
fn compiled_square_constraint_shape() {
    // wire(b*b) compiles to A = [(b,1)], B = [(b,1)] and a C side holding
    // the committed slot (the zero-coefficient cross term of b survives
    // the merge)
    let mut cs = CSWire::new(Mode::Compile);
    let b = cs.allocate(fp(2));
    let _sq = cs.wire(&b.mul(&b));
    let (_x, _w, r1cs) = cs.finish(&Vec::new());
    let r1cs = r1cs.unwrap();
    assert_eq!(r1cs.num_of_constraints(), 1);
    let row = &r1cs.0[0];
    assert_eq!(row.a.len(), 1);
    assert_eq!(row.a[0], (1usize, fp(1)));
    assert_eq!(row.b.len(), 1);
    assert_eq!(row.b[0], (1usize, fp(1)));
    assert_eq!(row.c.len(), 2);
    assert_eq!(row.c[0], (1usize, fp(0)));
    assert_eq!(row.c[1], (2usize, fp(1)));
}
