//! A Poseidon sponge built entirely from in-circuit wire arithmetic: a
//! fixed-round substitution-permutation network over the store's wires,
//! with duplex absorb/squeeze semantics.

use vstd::prelude::*;
use crate::field::{Fp, fadd, fmul, fpow};
use crate::cs::{CSWire, Lin, lemma_lin_valid_prefix};
use crate::expr::Expr;
use crate::utils::pow;

verus! {

/// The mode structure for duplex sponges.
#[derive(Clone, Copy, Debug, PartialEq, Eq, Structural)]
pub enum DuplexSpongeMode {
    /// The sponge is currently absorbing data.
    Absorbing {
        /// The next rate slot to be added into when absorbing.
        next_absorb_index: usize,
    },
    /// The sponge is currently squeezing data out.
    Squeezing {
        /// The next rate slot to be output when squeezing.
        next_squeeze_index: usize,
    },
}

/// The parameter tables of a Poseidon permutation: the additive round keys
/// and the MDS mixing matrix, with the round structure and sponge shape.
#[derive(Debug)]
pub struct PoseidonConfig {
    /// Number of full rounds, split evenly around the partial rounds.
    pub full_rounds: usize,
    /// Number of partial rounds.
    pub partial_rounds: usize,
    /// The S-box exponent.
    pub alpha: u64,
    /// Additive round keys, indexed by round then state slot.
    pub ark: Vec<Vec<Fp>>,
    /// The MDS mixing matrix, square over the state width.
    pub mds: Vec<Vec<Fp>>,
    /// The rate, in field elements.
    pub rate: usize,
    /// The capacity, in field elements.
    pub capacity: usize,
}

impl PoseidonConfig {
    /// The state width: rate plus capacity.
    pub open spec fn t(&self) -> int {
        self.rate + self.capacity
    }

    /// Whether round `r` applies the S-box to every slot: the first and
    /// last `full_rounds / 2` rounds do, the partial rounds between them
    /// touch only the first slot.
    pub open spec fn is_full_round(&self, r: int) -> bool {
        r < self.full_rounds / 2 || r >= self.full_rounds / 2 + self.partial_rounds
    }

    /// The tables match the declared round structure and sponge shape, and
    /// hold reduced entries.
    pub open spec fn wf(&self) -> bool {
        &&& 1 <= self.rate
    &&& self.rate + self.capacity <= usize::MAX
        &&& self.full_rounds + self.partial_rounds <= usize::MAX
        &&& self.ark@.len() == self.full_rounds + self.partial_rounds
        &&& forall|r: int|
            0 <= r < self.ark@.len() ==> (#[trigger] self.ark@[r])@.len() == self.t()
        &&& forall|r: int, c: int|
            0 <= r < self.ark@.len() && 0 <= c < self.ark@[r]@.len() ==> (
            #[trigger] self.ark@[r]@[c]).wf()
        &&& self.mds@.len() == self.t()
        &&& forall|r: int|
            0 <= r < self.mds@.len() ==> (#[trigger] self.mds@[r])@.len() == self.t()
        &&& forall|r: int, c: int|
            0 <= r < self.mds@.len() && 0 <= c < self.mds@[r]@.len() ==> (
            #[trigger] self.mds@[r]@[c]).wf()
    }

    /// Check the dimension and reduction requirements at run time.
    pub fn dims_ok(&self) -> (r: bool)
        ensures
            r == self.wf(),
    {
        if self.rate < 1 {
            return false;
        }
        if self.capacity > usize::MAX - self.rate {
            return false;
        }
        if self.partial_rounds > usize::MAX - self.full_rounds {
            return false;
        }
        let t = self.rate + self.capacity;
        let rounds = self.full_rounds + self.partial_rounds;
        if self.ark.len() != rounds {
            return false;
        }
        let mut r: usize = 0;
        while r < self.ark.len()
            invariant
                r <= self.ark@.len(),
                forall|q: int| 0 <= q < r ==> (#[trigger] self.ark@[q])@.len() == self.t(),
                forall|q: int, c: int|
                    0 <= q < r && 0 <= c < self.ark@[q]@.len() ==> (
                    #[trigger] self.ark@[q]@[c]).wf(),
                t == self.t(),
            decreases self.ark@.len() - r,
        {
            if self.ark[r].len() != t {
                return false;
            }
            let mut c: usize = 0;
            while c < self.ark[r].len()
                invariant
                    r < self.ark@.len(),
                    c <= self.ark@[r as int]@.len(),
                    forall|d: int|
                        0 <= d < c ==> (#[trigger] self.ark@[r as int]@[d]).wf(),
                decreases self.ark@[r as int]@.len() - c,
            {
                if !self.ark[r][c].is_reduced() {
                    return false;
                }
                c = c + 1;
            }
            r = r + 1;
        }
        if self.mds.len() != t {
            return false;
        }
        let mut r2: usize = 0;
        while r2 < self.mds.len()
            invariant
                r2 <= self.mds@.len(),
                forall|q: int| 0 <= q < r2 ==> (#[trigger] self.mds@[q])@.len() == self.t(),
                forall|q: int, c: int|
                    0 <= q < r2 && 0 <= c < self.mds@[q]@.len() ==> (
                    #[trigger] self.mds@[q]@[c]).wf(),
                t == self.t(),
            decreases self.mds@.len() - r2,
        {
            if self.mds[r2].len() != t {
                return false;
            }
            let mut c2: usize = 0;
            while c2 < self.mds[r2].len()
                invariant
                    r2 < self.mds@.len(),
                    c2 <= self.mds@[r2 as int]@.len(),
                    forall|d: int|
                        0 <= d < c2 ==> (#[trigger] self.mds@[r2 as int]@[d]).wf(),
                decreases self.mds@[r2 as int]@.len() - c2,
            {
                if !self.mds[r2][c2].is_reduced() {
                    return false;
                }
                c2 = c2 + 1;
            }
            r2 = r2 + 1;
        }
        true
    }
}

/// A duplex sponge over the store's wires, using the Poseidon permutation
/// as its round function.
#[derive(Debug)]
pub struct Poseidon {
    /// The parameter tables and sponge shape.
    pub config: PoseidonConfig,
    /// The current state, one wire-valued variable per slot; the capacity
    /// region comes first, the rate region after it.
    pub state: Vec<Lin>,
    /// Whether the sponge is absorbing or squeezing, and where.
    pub mode: DuplexSpongeMode,
    /// How many times the permutation has run.
    pub permutations: usize,
}

/// How a run of `len` sponge steps starting at rate slot `i0` walks the
/// rate region: the number of permutations triggered and the final slot
/// index.
pub open spec fn spec_walk(i0: int, len: int, rate: int) -> (int, int)
    decreases len,
{
    if len <= 0 {
        (0, i0)
    } else if i0 + len <= rate {
        (0, i0 + len)
    } else if i0 >= rate {
        (0, 0)
    } else {
        let rest = spec_walk(0, len - (rate - i0), rate);
        (rest.0 + 1, rest.1)
    }
}

/// The concrete values carried by a state vector.
pub open spec fn state_vals(s: Seq<Lin>) -> Seq<int> {
    s.map(|i: int, l: Lin| l.val@)
}

/// The dot product of the state values with one matrix row, accumulated
/// from the left.
pub open spec fn spec_row_sum(vals: Seq<int>, row: Seq<Fp>, j: int) -> int
    decreases j,
{
    if j <= 0 {
        0
    } else {
        fadd(spec_row_sum(vals, row, j - 1), fmul(vals[j - 1], row[j - 1]@))
    }
}

/// One round-key addition: every slot gains its key.
pub open spec fn spec_ark_round(vals: Seq<int>, row: Seq<Fp>) -> Seq<int> {
    Seq::new(vals.len(), |i: int| fadd(vals[i], row[i]@))
}

/// One S-box layer: every slot (or only the first) is raised to `alpha`,
/// carrying the one wire's value as the committed power's initial factor.
pub open spec fn spec_sbox(vals: Seq<int>, alpha: u64, one: int, full: bool) -> Seq<int> {
    Seq::new(
        vals.len(),
        |i: int|
            if full || i == 0 {
                fmul(one, fpow(vals[i], alpha as nat))
            } else {
                vals[i]
            },
    )
}

/// One MDS mixing layer: each output slot is its row's dot product with
/// the state.
pub open spec fn spec_mds_apply(vals: Seq<int>, m: Seq<Vec<Fp>>) -> Seq<int> {
    Seq::new(m.len(), |i: int| spec_row_sum(vals, m[i]@, vals.len() as int))
}

/// One Poseidon round: round keys, S-box, MDS mixing.
pub open spec fn spec_round(vals: Seq<int>, cfg: PoseidonConfig, r: int, one: int) -> Seq<int> {
    spec_mds_apply(
        spec_sbox(spec_ark_round(vals, cfg.ark@[r]@), cfg.alpha, one, cfg.is_full_round(r)),
        cfg.mds@,
    )
}

/// The first `n` rounds, in order.
pub open spec fn spec_rounds(vals: Seq<int>, cfg: PoseidonConfig, n: int, one: int) -> Seq<int>
    decreases n,
{
    if n <= 0 {
        vals
    } else {
        spec_round(spec_rounds(vals, cfg, n - 1, one), cfg, n - 1, one)
    }
}

/// The whole permutation: all full and partial rounds, in order.
pub open spec fn spec_permute(vals: Seq<int>, cfg: PoseidonConfig, one: int) -> Seq<int> {
    spec_rounds(vals, cfg, cfg.full_rounds + cfg.partial_rounds, one)
}

/// One block of absorption: the inputs added elementwise into consecutive
/// slots starting at the absolute state index `at`.
pub open spec fn spec_add_block(vals: Seq<int>, ins: Seq<int>, at: int) -> Seq<int> {
    Seq::new(
        vals.len(),
        |j: int|
            if at <= j < at + ins.len() {
                fadd(vals[j], ins[j - at])
            } else {
                vals[j]
            },
    )
}

/// The state values after absorbing `ins` from rate slot `i0`: blocks are
/// added into the rate region (which starts after the capacity slots) and
/// the permutation runs whenever the region fills before the input ends.
pub open spec fn spec_absorb_vals(
    vals: Seq<int>,
    ins: Seq<int>,
    i0: int,
    cfg: PoseidonConfig,
    one: int,
) -> Seq<int>
    decreases ins.len(),
{
    let rate = cfg.rate as int;
    let cap = cfg.capacity as int;
    if ins.len() <= rate - i0 {
        spec_add_block(vals, ins, cap + i0)
    } else if i0 >= rate {
        vals
    } else {
        spec_absorb_vals(
            spec_permute(spec_add_block(vals, ins.take(rate - i0), cap + i0), cfg, one),
            ins.skip(rate - i0),
            0,
            cfg,
            one,
        )
    }
}

/// The elements a squeeze run emits: consecutive rate slots from `i0`,
/// with the permutation run whenever the rate region is exhausted before
/// the output is complete.
pub open spec fn spec_squeeze_out(
    vals: Seq<int>,
    num: int,
    i0: int,
    cfg: PoseidonConfig,
    one: int,
) -> Seq<int>
    decreases num,
{
    let rate = cfg.rate as int;
    let cap = cfg.capacity as int;
    if num <= 0 {
        Seq::empty()
    } else if num <= rate - i0 {
        Seq::new(num as nat, |t: int| vals[cap + i0 + t])
    } else if i0 >= rate {
        Seq::empty()
    } else {
        Seq::new((rate - i0) as nat, |t: int| vals[cap + i0 + t]) + spec_squeeze_out(
            spec_permute(vals, cfg, one),
            num - (rate - i0),
            0,
            cfg,
            one,
        )
    }
}

/// The state after a squeeze run: unchanged within one rate block, permuted
/// once per exhausted block.
pub open spec fn spec_squeeze_state(
    vals: Seq<int>,
    num: int,
    i0: int,
    cfg: PoseidonConfig,
    one: int,
) -> Seq<int>
    decreases num,
{
    let rate = cfg.rate as int;
    if num <= rate - i0 {
        vals
    } else if i0 >= rate {
        vals
    } else {
        spec_squeeze_state(spec_permute(vals, cfg, one), num - (rate - i0), 0, cfg, one)
    }
}

impl Poseidon {
    /// The sponge is well formed against witness `w`: the state has the
    /// configured width, every slot is a valid degree-at-most-one variable,
    /// and the mode index stays within the rate.
    pub open spec fn sponge_wf(&self, w: Seq<int>) -> bool {
        &&& self.config.wf()
        &&& self.state@.len() == self.config.t()
        &&& forall|i: int|
            0 <= i < self.state@.len() ==> (#[trigger] self.state@[i]).wf()
                && self.state@[i].valid_for(w)
        &&& match self.mode {
            DuplexSpongeMode::Absorbing { next_absorb_index } => next_absorb_index
                <= self.config.rate,
            DuplexSpongeMode::Squeezing { next_squeeze_index } => next_squeeze_index
                <= self.config.rate,
        }
    }

    /// A fresh sponge: every state slot is the constant zero, absorbing
    /// from the first rate slot.
    pub fn new(cs: &CSWire, config: PoseidonConfig) -> (r: Poseidon)
        requires
            cs.wf(),
            config.wf(),
        ensures
            r.sponge_wf(cs.wit()),
            r.config == config,
            r.mode == (DuplexSpongeMode::Absorbing { next_absorb_index: 0usize }),
            r.permutations == 0,
            forall|i: int| 0 <= i < r.state@.len() ==> (#[trigger] r.state@[i]).val@ == 0,
    {
        let t = config.rate + config.capacity;
        let mut state: Vec<Lin> = Vec::new();
        let mut i: usize = 0;
        while i < t
            invariant
                i <= t,
                cs.wf(),
                state@.len() == i,
                forall|q: int|
                    0 <= q < i ==> (#[trigger] state@[q]).wf() && state@[q].valid_for(cs.wit())
                        && state@[q].val@ == 0,
            decreases t - i,
        {
            state.push(cs.zero());
            i = i + 1;
        }
        Poseidon {
            config,
            state,
            mode: DuplexSpongeMode::Absorbing { next_absorb_index: 0 },
            permutations: 0,
        }
    }

    /// Add the round keys of round `round` to every state slot.
    fn add_round_constants(&mut self, cs: &CSWire, round: usize)
        requires
            cs.wf(),
            old(self).sponge_wf(cs.wit()),
            round < old(self).config.ark@.len(),
        ensures
            final(self).sponge_wf(cs.wit()),
            final(self).config == old(self).config,
            final(self).mode == old(self).mode,
            final(self).permutations == old(self).permutations,
            state_vals(final(self).state@) == spec_ark_round(
                state_vals(old(self).state@),
                old(self).config.ark@[round as int]@,
            ),
    {
        let mut i: usize = 0;
        let ghost w = cs.wit();
        let ghost vals0 = state_vals(old(self).state@);
        while i < self.state.len()
            invariant
                cs.wf(),
                w == cs.wit(),
                self.sponge_wf(w),
                i <= self.state@.len(),
                round < self.config.ark@.len(),
                self.config == old(self).config,
                self.mode == old(self).mode,
                self.permutations == old(self).permutations,
                self.state@.len() == vals0.len(),
                vals0 == state_vals(old(self).state@),
                forall|q: int|
                    0 <= q < i ==> (#[trigger] self.state@[q]).val@ == fadd(
                        vals0[q],
                        self.config.ark@[round as int]@[q]@,
                    ),
                forall|q: int|
                    i <= q < self.state@.len() ==> #[trigger] self.state@[q] == old(
                        self,
                    ).state@[q],
            decreases self.state@.len() - i,
        {
            let kc = self.config.ark[round][i];
            let rc = Lin::coeff(kc);
            let updated = self.state[i].add(&rc);
            proof {
                assert(Expr::Coeff(kc).eval(w) == kc@);
                assert(Expr::Coeff(kc).idx_bound(w.len() as int));
                assert(rc.valid_for(w));
                assert(updated.valid_for(w));
            }
            self.state.set(i, updated);
            i = i + 1;
        }
        proof {
            assert(state_vals(self.state@) =~= spec_ark_round(
                vals0,
                self.config.ark@[round as int]@,
            ));
        }
    }

    /// Apply the S-box `x^alpha` to every slot of a full round, or to the
    /// first slot only of a partial round, committing each through `wire`.
    fn apply_s_box(&mut self, cs: &mut CSWire, is_full_round: bool)
        requires
            old(cs).wf(),
            old(self).sponge_wf(old(cs).wit()),
        ensures
            final(cs).wf(),
            final(cs).one_idx == old(cs).one_idx,
            final(cs).mode == old(cs).mode,
            final(cs).holds() <==> old(cs).holds(),
            old(cs).wit().len() <= final(cs).wit().len(),
            forall|i: int|
                0 <= i < old(cs).wit().len() ==> final(cs).wit()[i] == old(cs).wit()[i],
            final(self).sponge_wf(final(cs).wit()),
            final(self).config == old(self).config,
            final(self).mode == old(self).mode,
            final(self).permutations == old(self).permutations,
            state_vals(final(self).state@) == spec_sbox(
                state_vals(old(self).state@),
                old(self).config.alpha,
                old(cs).one_val(),
                is_full_round,
            ),
    {
        let ghost pre_cs = *cs;
        let ghost vals0 = state_vals(self.state@);
        let count = if is_full_round {
            self.state.len()
        } else {
            1
        };
        let mut i: usize = 0;
        while i < count
            invariant
                count <= self.state@.len(),
                count == if is_full_round {
                    self.state@.len() as int
                } else {
                    1int
                },
                i <= count,
                cs.wf(),
                cs.one_idx == pre_cs.one_idx,
                cs.mode == pre_cs.mode,
                cs.holds() <==> pre_cs.holds(),
                pre_cs.wit().len() <= cs.wit().len(),
                forall|q: int|
                    0 <= q < pre_cs.wit().len() ==> cs.wit()[q] == pre_cs.wit()[q],
                pre_cs.one_idx < pre_cs.wit().len(),
                cs.one_val() == pre_cs.one_val(),
                self.sponge_wf(cs.wit()),
                self.config == old(self).config,
                self.mode == old(self).mode,
                self.permutations == old(self).permutations,
                self.state@.len() == vals0.len(),
                vals0 == state_vals(old(self).state@),
                forall|q: int|
                    0 <= q < i ==> (#[trigger] self.state@[q]).val@ == fmul(
                        pre_cs.one_val(),
                        fpow(vals0[q], self.config.alpha as nat),
                    ),
                forall|q: int|
                    i <= q < self.state@.len() ==> #[trigger] self.state@[q] == old(
                        self,
                    ).state@[q],
            decreases count - i,
        {
            let ghost w_before = cs.wit();
            let elem = self.state[i].duplicate();
            let alpha = self.config.alpha;
            let powered = pow(cs, elem, alpha);
            proof {
                assert forall|q: int| 0 <= q < self.state@.len() implies (
                #[trigger] self.state@[q]).wf() && self.state@[q].valid_for(cs.wit()) by {
                    lemma_lin_valid_prefix(self.state@[q], w_before, cs.wit());
                }
            }
            self.state.set(i, powered);
            i = i + 1;
        }
        proof {
            assert(state_vals(self.state@) =~= spec_sbox(
                vals0,
                self.config.alpha,
                pre_cs.one_val(),
                is_full_round,
            ));
        }
    }

    /// Mix the state through the MDS matrix: each output slot is the row's
    /// linear combination of the old state, committed through `wire`.
    fn apply_mds(&mut self, cs: &mut CSWire)
        requires
            old(cs).wf(),
            old(self).sponge_wf(old(cs).wit()),
        ensures
            final(cs).wf(),
            final(cs).one_idx == old(cs).one_idx,
            final(cs).mode == old(cs).mode,
            final(cs).holds() <==> old(cs).holds(),
            old(cs).wit().len() <= final(cs).wit().len(),
            forall|i: int|
                0 <= i < old(cs).wit().len() ==> final(cs).wit()[i] == old(cs).wit()[i],
            final(self).sponge_wf(final(cs).wit()),
            final(self).config == old(self).config,
            final(self).mode == old(self).mode,
            final(self).permutations == old(self).permutations,
            state_vals(final(self).state@) == spec_mds_apply(
                state_vals(old(self).state@),
                old(self).config.mds@,
            ),
    {
        let ghost pre_cs = *cs;
        let ghost vals0 = state_vals(self.state@);
        let t = self.state.len();
        let mut new_state: Vec<Lin> = Vec::new();
        let mut i: usize = 0;
        while i < t
            invariant
                t == self.state@.len(),
                i <= t,
                cs.wf(),
                cs.one_idx == pre_cs.one_idx,
                cs.mode == pre_cs.mode,
                cs.holds() <==> pre_cs.holds(),
                pre_cs.wit().len() <= cs.wit().len(),
                forall|q: int|
                    0 <= q < pre_cs.wit().len() ==> cs.wit()[q] == pre_cs.wit()[q],
                self.sponge_wf(cs.wit()),
                self.config == old(self).config,
                self.mode == old(self).mode,
                self.permutations == old(self).permutations,
                self.state@ == old(self).state@,
                vals0 == state_vals(old(self).state@),
                new_state@.len() == i,
                forall|q: int|
                    0 <= q < i ==> (#[trigger] new_state@[q]).wf() && new_state@[q].valid_for(
                        cs.wit(),
                    ),
                forall|q: int|
                    0 <= q < i ==> (#[trigger] new_state@[q]).val@ == spec_row_sum(
                        vals0,
                        self.config.mds@[q]@,
                        t as int,
                    ),
            decreases t - i,
        {
            let mut acc = cs.zero();
            let mut j: usize = 0;
            while j < t
                invariant
                    t == self.state@.len(),
                    i < t,
                    i < self.config.mds@.len(),
                    j <= t,
                    cs.wf(),
                    self.sponge_wf(cs.wit()),
                    self.state@ == old(self).state@,
                    vals0 == state_vals(old(self).state@),
                    self.config == old(self).config,
                    acc.wf(),
                    acc.valid_for(cs.wit()),
                    acc.val@ == spec_row_sum(vals0, self.config.mds@[i as int]@, j as int),
                decreases t - j,
            {
                let k = self.config.mds[i][j];
                let term = self.state[j].mul_fp(k);
                proof {
                    assert(Expr::Coeff(k).eval(cs.wit()) == k@);
                    assert(Expr::Coeff(k).idx_bound(cs.wit().len() as int));
                    assert(term.valid_for(cs.wit()));
                    assert(vals0[j as int] == self.state@[j as int].val@);
                }
                acc = acc.add(&term);
                j = j + 1;
            }
            let ghost w_before = cs.wit();
            let committed = cs.wire(&acc.to_qua());
            proof {
                assert forall|q: int| 0 <= q < self.state@.len() implies (
                #[trigger] self.state@[q]).wf() && self.state@[q].valid_for(cs.wit()) by {
                    lemma_lin_valid_prefix(self.state@[q], w_before, cs.wit());
                }
                assert forall|q: int| 0 <= q < i implies (#[trigger] new_state@[q]).wf()
                    && new_state@[q].valid_for(cs.wit()) by {
                    lemma_lin_valid_prefix(new_state@[q], w_before, cs.wit());
                }
            }
            new_state.push(committed);
            i = i + 1;
        }
        self.state = new_state;
        proof {
            assert(state_vals(self.state@) =~= spec_mds_apply(vals0, self.config.mds@));
        }
    }

    /// Run the full permutation: the first half of the full rounds, the
    /// partial rounds, then the second half of the full rounds; each round
    /// adds the round keys, applies the S-box, and mixes through the MDS
    /// matrix.
    pub(crate) fn permute(&mut self, cs: &mut CSWire)
        requires
            old(cs).wf(),
            old(self).sponge_wf(old(cs).wit()),
            old(self).permutations < usize::MAX,
        ensures
            final(cs).wf(),
            final(cs).one_idx == old(cs).one_idx,
            final(cs).mode == old(cs).mode,
            final(cs).holds() <==> old(cs).holds(),
            old(cs).wit().len() <= final(cs).wit().len(),
            forall|i: int|
                0 <= i < old(cs).wit().len() ==> final(cs).wit()[i] == old(cs).wit()[i],
            final(self).sponge_wf(final(cs).wit()),
            final(self).config == old(self).config,
            final(self).mode == old(self).mode,
            final(self).permutations == old(self).permutations + 1,
            state_vals(final(self).state@) == spec_permute(
                state_vals(old(self).state@),
                old(self).config,
                old(cs).one_val(),
            ),
    {
        let ghost pre_cs = *cs;
        let ghost vals0 = state_vals(self.state@);
        let ghost one0 = pre_cs.one_val();
        let half = self.config.full_rounds / 2;
        let total = self.config.full_rounds + self.config.partial_rounds;
        let mut round: usize = 0;
        while round < total
            invariant
                round <= total,
                total == self.config.full_rounds + self.config.partial_rounds,
                half == self.config.full_rounds / 2,
                cs.wf(),
                cs.one_idx == pre_cs.one_idx,
                cs.mode == pre_cs.mode,
                cs.holds() <==> pre_cs.holds(),
                pre_cs.wit().len() <= cs.wit().len(),
                forall|q: int|
                    0 <= q < pre_cs.wit().len() ==> cs.wit()[q] == pre_cs.wit()[q],
                pre_cs.one_idx < pre_cs.wit().len(),
                cs.one_val() == one0,
                self.sponge_wf(cs.wit()),
                self.config == old(self).config,
                self.mode == old(self).mode,
                self.permutations == old(self).permutations,
                state_vals(self.state@) == spec_rounds(vals0, old(self).config, round as int, one0),
            decreases total - round,
        {
            let ghost vals_before = state_vals(self.state@);
            let is_full = round < half || round >= half + self.config.partial_rounds;
            self.add_round_constants(cs, round);
            self.apply_s_box(cs, is_full);
            self.apply_mds(cs);
            proof {
                assert(is_full == self.config.is_full_round(round as int));
                assert(state_vals(self.state@) == spec_round(
                    vals_before,
                    old(self).config,
                    round as int,
                    one0,
                ));
                assert(spec_rounds(vals0, old(self).config, round + 1, one0) == spec_round(
                    spec_rounds(vals0, old(self).config, round as int, one0),
                    old(self).config,
                    round as int,
                    one0,
                ));
            }
            round = round + 1;
        }
        self.permutations = self.permutations + 1;
    }
}

impl Poseidon {
    /// Absorb the given elements: add them into consecutive rate slots,
    /// running the permutation whenever the rate region fills before all
    /// elements are consumed. Absorbing nothing changes nothing.
    pub fn absorb(&mut self, cs: &mut CSWire, input: &Vec<Lin>)
        requires
            old(cs).wf(),
            old(self).sponge_wf(old(cs).wit()),
            forall|i: int|
                0 <= i < input@.len() ==> (#[trigger] input@[i]).wf() && input@[i].valid_for(
                    old(cs).wit(),
                ),
            old(self).permutations + input@.len() + 2 <= usize::MAX,
        ensures
            final(cs).wf(),
            final(cs).one_idx == old(cs).one_idx,
            final(cs).mode == old(cs).mode,
            final(cs).holds() <==> old(cs).holds(),
            old(cs).wit().len() <= final(cs).wit().len(),
            forall|i: int|
                0 <= i < old(cs).wit().len() ==> final(cs).wit()[i] == old(cs).wit()[i],
            final(self).sponge_wf(final(cs).wit()),
            final(self).config == old(self).config,
            input@.len() == 0 ==> *final(self) == *old(self) && *final(cs) == *old(cs),
            (input@.len() > 0 && (old(self).mode matches DuplexSpongeMode::Absorbing {
                next_absorb_index,
            } && next_absorb_index + input@.len() <= old(self).config.rate)) ==> ({
                let cap = old(self).config.capacity as int;
                let i0 = old(self).mode->Absorbing_next_absorb_index as int;
                &&& final(self).permutations == old(self).permutations
                &&& forall|j: int|
                    0 <= j < final(self).state@.len() && !(cap + i0 <= j < cap + i0
                        + input@.len()) ==> #[trigger] final(self).state@[j]
                        == old(self).state@[j]
                &&& forall|j: int|
                    cap + i0 <= j < cap + i0 + input@.len() ==> (#[trigger] final(self).state@[j]).val@
                        == crate::field::fadd(
                        old(self).state@[j].val@,
                        input@[j - cap - i0].val@,
                    )
            }),
            input@.len() > 0 ==> ({
                let one = old(cs).one_val();
                let base = match old(self).mode {
                    DuplexSpongeMode::Absorbing { next_absorb_index } => if next_absorb_index
                        == old(self).config.rate {
                        (spec_permute(state_vals(old(self).state@), old(self).config, one), 0int)
                    } else {
                        (state_vals(old(self).state@), next_absorb_index as int)
                    },
                    DuplexSpongeMode::Squeezing { next_squeeze_index } => (
                        state_vals(old(self).state@),
                        0int,
                    ),
                };
                state_vals(final(self).state@) == spec_absorb_vals(
                    base.0,
                    state_vals(input@),
                    base.1,
                    old(self).config,
                    one,
                )
            }),
            input@.len() > 0 ==> ({
                let rate = old(self).config.rate as int;
                let len = input@.len() as int;
                let start = match old(self).mode {
                    DuplexSpongeMode::Absorbing { next_absorb_index } => if next_absorb_index
                        == old(self).config.rate {
                        (0int, 1int)
                    } else {
                        (next_absorb_index as int, 0int)
                    },
                    DuplexSpongeMode::Squeezing { next_squeeze_index } => (0int, 0int),
                };
                &&& final(self).permutations == old(self).permutations + start.1 + spec_walk(
                    start.0,
                    len,
                    rate,
                ).0
                &&& final(self).mode == (DuplexSpongeMode::Absorbing {
                    next_absorb_index: spec_walk(start.0, len, rate).1 as usize,
                })
            }),
    {
        let ghost pre_cs = *cs;
        let ghost pre_self = *self;
        if input.len() == 0 {
            return ;
        }
        let rate = self.config.rate;
        let len = input.len();
        let mut idx: usize;
        match self.mode {
            DuplexSpongeMode::Absorbing { next_absorb_index } => {
                if next_absorb_index == rate {
                    self.permute(cs);
                    idx = 0;
                } else {
                    idx = next_absorb_index;
                }
            }
            DuplexSpongeMode::Squeezing { next_squeeze_index } => {
                idx = 0;
            }
        }
        let ghost base_perm = self.permutations as int;
        let ghost i0 = idx as int;
        let ghost state_entry = self.state@;
        let ghost vals_start = state_vals(self.state@);
        let ghost ins_all = state_vals(input@);
        let ghost one0 = pre_cs.one_val();
        let mut consumed: usize = 0;
        proof {
            assert(ins_all.skip(0) =~= ins_all);
            assert forall|u: int| 0 <= u < input@.len() implies (#[trigger] input@[u]).wf()
                && input@[u].valid_for(cs.wit()) by {
                lemma_lin_valid_prefix(input@[u], pre_cs.wit(), cs.wit());
            }
        }
        while len - consumed > rate - idx
            invariant
                len == input@.len(),
                rate == self.config.rate,
                consumed <= len,
                idx < rate,
                cs.wf(),
                cs.one_idx == pre_cs.one_idx,
                cs.mode == pre_cs.mode,
                cs.holds() <==> pre_cs.holds(),
                pre_cs.wit().len() <= cs.wit().len(),
                forall|q: int|
                    0 <= q < pre_cs.wit().len() ==> cs.wit()[q] == pre_cs.wit()[q],
                self.sponge_wf(cs.wit()),
                self.config == pre_self.config,
                forall|u: int|
                    0 <= u < input@.len() ==> (#[trigger] input@[u]).wf()
                        && input@[u].valid_for(cs.wit()),
                self.permutations as int - base_perm >= 0,
                self.permutations as int - base_perm <= consumed,
                base_perm + len <= usize::MAX - 1,
                i0 + len <= rate as int ==> consumed == 0 && idx as int == i0 && self.state@
                    == state_entry && self.permutations == base_perm,
                ins_all == state_vals(input@),
                pre_cs.one_idx < pre_cs.wit().len(),
                cs.one_val() == one0,
                spec_absorb_vals(vals_start, ins_all, i0, pre_self.config, one0)
                    == spec_absorb_vals(
                    state_vals(self.state@),
                    ins_all.skip(consumed as int),
                    idx as int,
                    pre_self.config,
                    one0,
                ),
                spec_walk(i0, len as int, rate as int).0 == (self.permutations - base_perm)
                    + spec_walk(idx as int, len - consumed, rate as int).0,
                spec_walk(i0, len as int, rate as int).1 == spec_walk(
                    idx as int,
                    len - consumed,
                    rate as int,
                ).1,
            decreases len - consumed,
        {
            let ghost idx0 = idx as int;
            let ghost rem0 = (len - consumed) as int;
            let num = rate - idx;
            let ghost perm_snap = self.permutations;
            let ghost mode_snap = self.mode;
            let ghost snap2 = self.state@;
            let mut i2: usize = 0;
            while i2 < num
                invariant
                    i2 <= num,
                    num == rate - idx,
                    idx < rate,
                    rate == self.config.rate,
                    consumed + num <= len,
                    len == input@.len(),
                    ins_all == state_vals(input@),
                    cs.wf(),
                    self.sponge_wf(cs.wit()),
                    self.config == pre_self.config,
                    self.permutations == perm_snap,
                    self.mode == mode_snap,
                    self.state@.len() == snap2.len(),
                    forall|j: int|
                        0 <= j < self.state@.len() && !(self.config.capacity + idx <= j
                            < self.config.capacity + idx + i2) ==> #[trigger] self.state@[j]
                            == snap2[j],
                    forall|j: int|
                        self.config.capacity + idx <= j < self.config.capacity + idx + i2 ==> (
                        #[trigger] self.state@[j]).val@ == fadd(
                            snap2[j].val@,
                            ins_all[consumed + (j - self.config.capacity - idx)],
                        ),
                    forall|u: int|
                        0 <= u < input@.len() ==> (#[trigger] input@[u]).wf()
                            && input@[u].valid_for(cs.wit()),
                decreases num - i2,
            {
                let slot = self.config.capacity + idx + i2;
                let updated = self.state[slot].add(&input[consumed + i2]);
                proof {
                    assert(updated.valid_for(cs.wit()));
                    assert(ins_all[consumed + i2] == input@[consumed + i2].val@);
                }
                self.state.set(slot, updated);
                i2 = i2 + 1;
            }
            proof {
                assert(state_vals(self.state@) =~= spec_add_block(
                    state_vals(snap2),
                    ins_all.subrange(consumed as int, consumed + num),
                    self.config.capacity + idx,
                ));
            }
            let ghost w_before = cs.wit();
            let ghost perm_before = self.permutations;
            let ghost vals_blocked = state_vals(self.state@);
            self.permute(cs);
            proof {
                assert forall|u: int| 0 <= u < input@.len() implies (#[trigger] input@[u]).wf()
                    && input@[u].valid_for(cs.wit()) by {
                    lemma_lin_valid_prefix(input@[u], w_before, cs.wit());
                }
            }
            consumed = consumed + num;
            idx = 0;
            proof {
                assert(spec_walk(idx0, rem0, rate as int) == (
                    spec_walk(0, rem0 - (rate - idx0), rate as int).0 + 1,
                    spec_walk(0, rem0 - (rate - idx0), rate as int).1,
                ));
                let rem_seq = ins_all.skip(consumed - num);
                assert(rem_seq.take(num as int) =~= ins_all.subrange(
                    consumed - num,
                    consumed as int,
                ));
                assert(rem_seq.skip(num as int) =~= ins_all.skip(consumed as int));
                assert(state_vals(self.state@) == spec_permute(
                    vals_blocked,
                    pre_self.config,
                    one0,
                ));
                assert(spec_absorb_vals(
                    state_vals(snap2),
                    rem_seq,
                    idx0,
                    pre_self.config,
                    one0,
                ) == spec_absorb_vals(
                    state_vals(self.state@),
                    ins_all.skip(consumed as int),
                    0,
                    pre_self.config,
                    one0,
                ));
            }
        }
        let rem = len - consumed;
        let ghost perm_snap3 = self.permutations;
        let ghost mode_snap3 = self.mode;
        let ghost state_snap3 = self.state@;
        let mut i3: usize = 0;
        while i3 < rem
            invariant
                i3 <= rem,
                rem == len - consumed,
                idx + rem <= rate,
                rate == self.config.rate,
                len == input@.len(),
                consumed <= len,
                cs.wf(),
                self.sponge_wf(cs.wit()),
                self.config == pre_self.config,
                self.permutations == perm_snap3,
                self.mode == mode_snap3,
                self.state@.len() == state_snap3.len(),
                forall|j: int|
                    0 <= j < self.state@.len() && !(self.config.capacity + idx <= j
                        < self.config.capacity + idx + i3) ==> #[trigger] self.state@[j]
                        == state_snap3[j],
                forall|j: int|
                    self.config.capacity + idx <= j < self.config.capacity + idx + i3 ==> (
                    #[trigger] self.state@[j]).val@ == crate::field::fadd(
                        state_snap3[j].val@,
                        input@[consumed + (j - self.config.capacity - idx)].val@,
                    ),
                cs.one_idx == pre_cs.one_idx,
                cs.mode == pre_cs.mode,
                cs.holds() <==> pre_cs.holds(),
                pre_cs.wit().len() <= cs.wit().len(),
                forall|q: int|
                    0 <= q < pre_cs.wit().len() ==> cs.wit()[q] == pre_cs.wit()[q],
                forall|u: int|
                    0 <= u < input@.len() ==> (#[trigger] input@[u]).wf()
                        && input@[u].valid_for(cs.wit()),
            decreases rem - i3,
        {
            let slot = self.config.capacity + idx + i3;
            let updated = self.state[slot].add(&input[consumed + i3]);
            proof {
                assert(updated.valid_for(cs.wit()));
            }
            self.state.set(slot, updated);
            i3 = i3 + 1;
        }
        self.mode = DuplexSpongeMode::Absorbing { next_absorb_index: idx + rem };
        proof {
            assert(spec_walk(idx as int, rem as int, rate as int) == (
                0int,
                idx + rem as int,
            ));
            assert(state_vals(self.state@) =~= spec_add_block(
                state_vals(state_snap3),
                ins_all.subrange(consumed as int, len as int),
                self.config.capacity + idx,
            ));
            assert(ins_all.skip(consumed as int) =~= ins_all.subrange(
                consumed as int,
                len as int,
            ));
            assert(spec_absorb_vals(
                state_vals(state_snap3),
                ins_all.skip(consumed as int),
                idx as int,
                pre_self.config,
                one0,
            ) == state_vals(self.state@));
        }
    }

    /// Squeeze `num` elements: copy consecutive rate slots out, permuting
    /// first when arriving from absorption and whenever the rate region is
    /// exhausted mid-squeeze.
    pub fn squeeze(&mut self, cs: &mut CSWire, num: usize) -> (out: Vec<Lin>)
        requires
            old(cs).wf(),
            old(self).sponge_wf(old(cs).wit()),
            old(self).permutations + num + 2 <= usize::MAX,
        ensures
            final(cs).wf(),
            final(cs).one_idx == old(cs).one_idx,
            final(cs).mode == old(cs).mode,
            final(cs).holds() <==> old(cs).holds(),
            old(cs).wit().len() <= final(cs).wit().len(),
            forall|i: int|
                0 <= i < old(cs).wit().len() ==> final(cs).wit()[i] == old(cs).wit()[i],
            final(self).sponge_wf(final(cs).wit()),
            final(self).config == old(self).config,
            out@.len() == num,
            forall|i: int|
                0 <= i < out@.len() ==> (#[trigger] out@[i]).wf() && out@[i].valid_for(
                    final(cs).wit(),
                ),
            (old(self).mode is Absorbing && num <= old(self).config.rate) ==> ({
                let pv = spec_permute(
                    state_vals(old(self).state@),
                    old(self).config,
                    old(cs).one_val(),
                );
                &&& state_vals(final(self).state@) == pv
                &&& forall|t: int|
                    0 <= t < num ==> (#[trigger] out@[t]).val@ == pv[old(self).config.capacity
                        + t]
            }),
            (num > 0 && (old(self).mode matches DuplexSpongeMode::Squeezing {
                next_squeeze_index,
            } && next_squeeze_index + num <= old(self).config.rate)) ==> ({
                let cap = old(self).config.capacity as int;
                let i0q = old(self).mode->Squeezing_next_squeeze_index as int;
                &&& final(self).permutations == old(self).permutations
                &&& final(self).state@ == old(self).state@
                &&& forall|t: int|
                    0 <= t < num ==> (#[trigger] out@[t]).val == old(self).state@[cap + i0q
                        + t].val
            }),
            ({
                let one = old(cs).one_val();
                let base = match old(self).mode {
                    DuplexSpongeMode::Absorbing { next_absorb_index } => (
                        spec_permute(state_vals(old(self).state@), old(self).config, one),
                        0int,
                    ),
                    DuplexSpongeMode::Squeezing { next_squeeze_index } => if next_squeeze_index
                        == old(self).config.rate {
                        (spec_permute(state_vals(old(self).state@), old(self).config, one), 0int)
                    } else {
                        (state_vals(old(self).state@), next_squeeze_index as int)
                    },
                };
                &&& state_vals(final(self).state@) == spec_squeeze_state(
                    base.0,
                    num as int,
                    base.1,
                    old(self).config,
                    one,
                )
                &&& state_vals(out@) == spec_squeeze_out(
                    base.0,
                    num as int,
                    base.1,
                    old(self).config,
                    one,
                )
            }),
            ({
                let rate = old(self).config.rate as int;
                let start = match old(self).mode {
                    DuplexSpongeMode::Absorbing { next_absorb_index } => (0int, 1int),
                    DuplexSpongeMode::Squeezing { next_squeeze_index } => if next_squeeze_index
                        == old(self).config.rate {
                        (0int, 1int)
                    } else {
                        (next_squeeze_index as int, 0int)
                    },
                };
                &&& final(self).permutations == old(self).permutations + start.1 + spec_walk(
                    start.0,
                    num as int,
                    rate,
                ).0
                &&& final(self).mode == (DuplexSpongeMode::Squeezing {
                    next_squeeze_index: spec_walk(start.0, num as int, rate).1 as usize,
                })
            }),
    {
        let ghost pre_cs = *cs;
        let ghost pre_self = *self;
        let rate = self.config.rate;
        let mut idx: usize;
        match self.mode {
            DuplexSpongeMode::Absorbing { next_absorb_index } => {
                self.permute(cs);
                idx = 0;
            }
            DuplexSpongeMode::Squeezing { next_squeeze_index } => {
                if next_squeeze_index == rate {
                    self.permute(cs);
                    idx = 0;
                } else {
                    idx = next_squeeze_index;
                }
            }
        }
        let ghost base_perm = self.permutations as int;
        let ghost i0 = idx as int;
        let ghost state_entry = self.state@;
        let ghost vals_start = state_vals(self.state@);
        let ghost one0 = pre_cs.one_val();
        let mut out: Vec<Lin> = Vec::new();
        let mut produced: usize = 0;
        proof {
            assert(state_vals(out@) =~= Seq::<int>::empty());
            assert(Seq::<int>::empty() + spec_squeeze_out(
                vals_start,
                num as int,
                i0,
                pre_self.config,
                one0,
            ) =~= spec_squeeze_out(vals_start, num as int, i0, pre_self.config, one0));
        }
        while num - produced > rate - idx
            invariant
                rate == self.config.rate,
                produced <= num,
                idx < rate,
                out@.len() == produced,
                cs.wf(),
                cs.one_idx == pre_cs.one_idx,
                cs.mode == pre_cs.mode,
                cs.holds() <==> pre_cs.holds(),
                pre_cs.wit().len() <= cs.wit().len(),
                forall|q: int|
                    0 <= q < pre_cs.wit().len() ==> cs.wit()[q] == pre_cs.wit()[q],
                self.sponge_wf(cs.wit()),
                self.config == pre_self.config,
                forall|u: int|
                    0 <= u < out@.len() ==> (#[trigger] out@[u]).wf() && out@[u].valid_for(
                        cs.wit(),
                    ),
                self.permutations as int - base_perm >= 0,
                self.permutations as int - base_perm <= produced,
                base_perm + num <= usize::MAX - 1,
                i0 + num <= rate as int ==> produced == 0 && idx as int == i0 && self.state@
                    == state_entry && self.permutations == base_perm,
                pre_cs.one_idx < pre_cs.wit().len(),
                cs.one_val() == one0,
                spec_squeeze_state(vals_start, num as int, i0, pre_self.config, one0)
                    == spec_squeeze_state(
                    state_vals(self.state@),
                    num - produced,
                    idx as int,
                    pre_self.config,
                    one0,
                ),
                spec_squeeze_out(vals_start, num as int, i0, pre_self.config, one0)
                    == state_vals(out@) + spec_squeeze_out(
                    state_vals(self.state@),
                    num - produced,
                    idx as int,
                    pre_self.config,
                    one0,
                ),
                spec_walk(i0, num as int, rate as int).0 == (self.permutations - base_perm)
                    + spec_walk(idx as int, num - produced, rate as int).0,
                spec_walk(i0, num as int, rate as int).1 == spec_walk(
                    idx as int,
                    num - produced,
                    rate as int,
                ).1,
            decreases num - produced,
        {
            let ghost idx0 = idx as int;
            let ghost rem0 = (num - produced) as int;
            let take = rate - idx;
            let ghost perm_snap = self.permutations;
            let ghost mode_snap = self.mode;
            let ghost snap2 = self.state@;
            let ghost out_snap2 = out@;
            let mut i2: usize = 0;
            while i2 < take
                invariant
                    i2 <= take,
                    take == rate - idx,
                    idx < rate,
                    rate == self.config.rate,
                    out@.len() == produced + i2,
                    cs.wf(),
                    self.sponge_wf(cs.wit()),
                    self.config == pre_self.config,
                    self.permutations == perm_snap,
                    self.mode == mode_snap,
                    self.state@ == snap2,
                    out@.len() == out_snap2.len() + i2,
                    forall|t: int|
                        0 <= t < out_snap2.len() ==> #[trigger] out@[t] == out_snap2[t],
                    forall|t: int|
                        0 <= t < i2 ==> (#[trigger] out@[out_snap2.len() + t]).val
                            == snap2[self.config.capacity + idx + t].val,
                    forall|u: int|
                        0 <= u < out@.len() ==> (#[trigger] out@[u]).wf() && out@[u].valid_for(
                            cs.wit(),
                        ),
                decreases take - i2,
            {
                let slot = self.config.capacity + idx + i2;
                out.push(self.state[slot].duplicate());
                i2 = i2 + 1;
            }
            proof {
                let window = Seq::new(
                    take as nat,
                    |t: int| state_vals(snap2)[self.config.capacity + idx + t],
                );
                assert forall|k: int| 0 <= k < out@.len() implies #[trigger] state_vals(
                    out@,
                )[k] == (state_vals(out_snap2) + window)[k] by {
                    assert(state_vals(out@)[k] == out@[k].val@);
                    if k < out_snap2.len() {
                        assert(out@[k] == out_snap2[k]);
                    } else {
                        let t = k - out_snap2.len();
                        assert(out@[out_snap2.len() + t].val == snap2[self.config.capacity + idx
                            + t].val);
                        assert(window[t] == state_vals(snap2)[self.config.capacity + idx + t]);
                        assert(state_vals(snap2)[self.config.capacity + idx + t]
                            == snap2[self.config.capacity + idx + t].val@);
                    }
                }
                assert(state_vals(out@) =~= state_vals(out_snap2) + window);
            }
            let ghost w_before = cs.wit();
            self.permute(cs);
            proof {
                assert forall|u: int| 0 <= u < out@.len() implies (#[trigger] out@[u]).wf()
                    && out@[u].valid_for(cs.wit()) by {
                    lemma_lin_valid_prefix(out@[u], w_before, cs.wit());
                }
            }
            produced = produced + take;
            idx = 0;
            proof {
                assert(spec_walk(idx0, rem0, rate as int) == (
                    spec_walk(0, rem0 - (rate - idx0), rate as int).0 + 1,
                    spec_walk(0, rem0 - (rate - idx0), rate as int).1,
                ));
                let window = Seq::new(
                    (rate - idx0) as nat,
                    |t: int| state_vals(snap2)[self.config.capacity + idx0 + t],
                );
                assert(state_vals(self.state@) == spec_permute(
                    state_vals(snap2),
                    pre_self.config,
                    one0,
                ));
                assert(spec_squeeze_out(state_vals(snap2), rem0, idx0, pre_self.config, one0)
                    == window + spec_squeeze_out(
                    state_vals(self.state@),
                    rem0 - (rate - idx0),
                    0,
                    pre_self.config,
                    one0,
                ));
                assert(spec_squeeze_state(state_vals(snap2), rem0, idx0, pre_self.config, one0)
                    == spec_squeeze_state(
                    state_vals(self.state@),
                    rem0 - (rate - idx0),
                    0,
                    pre_self.config,
                    one0,
                ));
                assert((state_vals(out_snap2) + window) + spec_squeeze_out(
                    state_vals(self.state@),
                    num - produced,
                    0,
                    pre_self.config,
                    one0,
                ) =~= state_vals(out_snap2) + (window + spec_squeeze_out(
                    state_vals(self.state@),
                    num - produced,
                    0,
                    pre_self.config,
                    one0,
                )));
            }
        }
        let rem = num - produced;
        let ghost perm_snap3 = self.permutations;
        let ghost mode_snap3 = self.mode;
        let ghost state_snap3 = self.state@;
        let ghost out_snap3 = out@;
        let mut i3: usize = 0;
        while i3 < rem
            invariant
                i3 <= rem,
                rem == num - produced,
                idx + rem <= rate,
                rate == self.config.rate,
                out@.len() == produced + i3,
                cs.wf(),
                self.sponge_wf(cs.wit()),
                self.config == pre_self.config,
                self.permutations == perm_snap3,
                self.mode == mode_snap3,
                self.state@ == state_snap3,
                out@.len() == out_snap3.len() + i3,
                forall|t: int| 0 <= t < out_snap3.len() ==> #[trigger] out@[t] == out_snap3[t],
                forall|t: int|
                    0 <= t < i3 ==> (#[trigger] out@[out_snap3.len() + t]).val
                        == self.state@[self.config.capacity + idx + t].val,
                cs.one_idx == pre_cs.one_idx,
                cs.mode == pre_cs.mode,
                cs.holds() <==> pre_cs.holds(),
                pre_cs.wit().len() <= cs.wit().len(),
                forall|q: int|
                    0 <= q < pre_cs.wit().len() ==> cs.wit()[q] == pre_cs.wit()[q],
                forall|u: int|
                    0 <= u < out@.len() ==> (#[trigger] out@[u]).wf() && out@[u].valid_for(
                        cs.wit(),
                    ),
            decreases rem - i3,
        {
            let slot = self.config.capacity + idx + i3;
            out.push(self.state[slot].duplicate());
            i3 = i3 + 1;
        }
        self.mode = DuplexSpongeMode::Squeezing { next_squeeze_index: idx + rem };
        proof {
            assert(spec_walk(idx as int, rem as int, rate as int) == (
                0int,
                idx + rem as int,
            ));
            let tail = spec_squeeze_out(
                state_vals(state_snap3),
                rem as int,
                idx as int,
                pre_self.config,
                one0,
            );
            if rem > 0 {
                assert(tail =~= Seq::new(
                    rem as nat,
                    |t: int| state_vals(state_snap3)[self.config.capacity + idx + t],
                ));
            } else {
                assert(tail =~= Seq::<int>::empty());
            }
            assert forall|k: int| 0 <= k < out@.len() implies #[trigger] state_vals(out@)[k]
                == (state_vals(out_snap3) + tail)[k] by {
                assert(state_vals(out@)[k] == out@[k].val@);
                if k < out_snap3.len() {
                    assert(out@[k] == out_snap3[k]);
                } else {
                    let t = k - out_snap3.len();
                    assert(out@[out_snap3.len() + t].val == state_snap3[self.config.capacity
                        + idx + t].val);
                    assert(state_vals(state_snap3)[self.config.capacity + idx + t]
                        == state_snap3[self.config.capacity + idx + t].val@);
                }
            }
            assert(state_vals(out@) =~= state_vals(out_snap3) + tail);
            assert(spec_squeeze_state(
                state_vals(state_snap3),
                rem as int,
                idx as int,
                pre_self.config,
                one0,
            ) == state_vals(state_snap3));
            assert(state_vals(self.state@) == state_vals(state_snap3));
            if pre_self.mode is Absorbing && num <= pre_self.config.rate {
                assert(produced == 0);
                assert(idx as int == i0 && i0 == 0);
                assert(self.state@ == state_entry);
                assert(state_vals(state_entry) == spec_permute(
                    state_vals(pre_self.state@),
                    pre_self.config,
                    pre_cs.one_val(),
                ));
                assert(out_snap3.len() == 0);
                assert forall|t: int| 0 <= t < num implies (#[trigger] out@[t]).val@
                    == spec_permute(
                    state_vals(pre_self.state@),
                    pre_self.config,
                    pre_cs.one_val(),
                )[pre_self.config.capacity + t] by {
                    assert(out@[out_snap3.len() + t].val == self.state@[self.config.capacity
                        + idx + t].val);
                    assert(state_vals(self.state@)[pre_self.config.capacity + t]
                        == self.state@[pre_self.config.capacity + t].val@);
                }
            }
            if num > 0 && pre_self.mode is Squeezing
                && pre_self.mode->Squeezing_next_squeeze_index + num <= pre_self.config.rate {
                assert(produced == 0);
                assert(idx as int == i0);
                assert(self.state@ == state_entry);
                assert(out_snap3.len() == 0);
                assert forall|t: int| 0 <= t < num implies (#[trigger] out@[t]).val
                    == pre_self.state@[pre_self.config.capacity as int + i0 + t].val by {
                    assert(out@[out_snap3.len() + t].val == self.state@[self.config.capacity
                        + idx + t].val);
                }
            }
        }
        out
    }
}

} // verus!