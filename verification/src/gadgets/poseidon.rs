//! What the Poseidon gadgets compute: several rounds in one polynomial, the
//! partial rounds with the first element of each state given as advice, and
//! the pieces of the mixed strategy for full rounds.

use vstd::prelude::*;
use crate::field::{Fe, fadd, fsub, vals};
use crate::folding::poseidon::{
    Constants, Poseidon, ark, sbox, mix, ark_spec, sbox_spec, mix_spec, mat_vals, mat_fits, rounds_spec, pow5,
    is_full_round, lemma_rounds_len, lemma_rounds_lt, lemma_rounds_concat, hash_spec,
};
use crate::witness::CSWtns;
use crate::run::{assigned_vals, constraint_holds};
use crate::constraint_system::{Variable, Visibility, copy_vars};
use crate::circuit::{
    Circuit, Operation, pushed, is_advice, is_poly, has_gate, lemma_gate_kept, lemma_grown_trans, lemma_grown_mono,
    lemma_room_step, lemma_room_left, lemma_extends_refl, lemma_fresh_kept, lemma_extends_trans, op_outputs,
    law_applied_gate_sound, lemma_constraint_arity,
};
use crate::gate::Gate;
use crate::gatelib::{
    LibGate, GateKind, PolyKind, kind_wf, partial_rounds, rounds_fit, poly_wf, poly_d, padded, consts_c, consts_m, partial_out,
};
use vstd::arithmetic::power::pow;
use crate::advice::AdviceKind;
use std::rc::Rc;

verus! {

/// The state after `j` partial rounds in which the first element after the
/// constants is replaced by the advice `adv[j]` rather than raised to the
/// fifth power.
pub open spec fn partial_with_advice(
    state: Seq<nat>,
    c: Seq<nat>,
    m: Seq<Seq<nat>>,
    adv: Seq<nat>,
    nf: nat,
    t: nat,
    j: nat,
) -> Seq<nat>
    decreases j,
{
    if j == 0 {
        state
    } else {
        let p = partial_with_advice(state, c, m, adv, nf, t, (j - 1) as nat);
        mix_spec(ark_spec(p, c, (t * ((j - 1) + nf / 2)) as int).update(0, adv[j - 1]), m)
    }
}

/// The parameters of the partial rounds fit the constants and the state.
pub open spec fn partial_fits(len: nat, c: Seq<Fe>, m: Seq<Vec<Fe>>, nf: nat, np: nat, t: nat) -> bool {
    &&& len > 0
    &&& np > 0 ==> t * ((np - 1) + nf / 2) + len <= c.len()
    &&& mat_fits(m, len)
    &&& nf / 2 + np <= usize::MAX
}

/// Raises the first element to the fifth power.
fn fifth_first(state: &mut Vec<Fe>) -> (r: Fe)
    requires
        old(state)@.len() > 0,
    ensures
        final(state)@ == old(state)@.update(0, r),
        r.val() == pow5(old(state)@[0].val()),
{
    let x = state[0];
    let sq = x.square();
    let q = sq.square();
    let y = x.mul(&q);
    state.set(0, y);
    proof {
        crate::field::lemma_fmul_comm(x.val(), q.val());
    }
    y
}

/// All partial rounds from `input_state`: returns the first element of every
/// state after its S-box, then the final state.
pub fn poseidon_partial_rounds_advice(
    input_state: &[Fe],
    c: &Vec<Fe>,
    m: &Vec<Vec<Fe>>,
    n_rounds_f: usize,
    n_rounds_p: usize,
    t: usize,
) -> (r: Vec<Fe>)
    requires
        partial_fits(input_state@.len(), c@, m@, n_rounds_f as nat, n_rounds_p as nat, t as nat),
    ensures
        r@.len() == n_rounds_p + input_state@.len(),
        forall|j: int| 0 <= j < n_rounds_p ==> (#[trigger] r@[j]).val() == pow5(ark_spec(
            rounds_spec(vals(input_state@), vals(c@), mat_vals(m@), n_rounds_f as nat, n_rounds_p as nat, t as nat, (n_rounds_f / 2) as nat, j as nat),
            vals(c@),
            (t * (j + n_rounds_f / 2)) as int,
        )[0]),
        vals(r@).skip(n_rounds_p as int) == rounds_spec(
            vals(input_state@),
            vals(c@),
            mat_vals(m@),
            n_rounds_f as nat,
            n_rounds_p as nat,
            t as nat,
            (n_rounds_f / 2) as nat,
            n_rounds_p as nat,
        ),
{
    let ghost s0 = vals(input_state@);
    let ghost cv = vals(c@);
    let ghost mv = mat_vals(m@);
    let ghost nf = n_rounds_f as nat;
    let ghost np = n_rounds_p as nat;
    let ghost h = (n_rounds_f / 2) as nat;
    let clen = c.len();
    let mut state = vstd::slice::slice_to_vec(input_state);
    let mut ret: Vec<Fe> = Vec::new();
    let mut j: usize = 0;
    while j < n_rounds_p
        invariant
            partial_fits(input_state@.len(), c@, m@, nf, np, t as nat),
            clen == c@.len(),
            s0 == vals(input_state@),
            cv == vals(c@),
            mv == mat_vals(m@),
            nf == n_rounds_f,
            np == n_rounds_p,
            h == n_rounds_f / 2,
            j <= n_rounds_p,
            state@.len() == input_state@.len(),
            vals(state@) == rounds_spec(s0, cv, mv, nf, np, t as nat, h, j as nat),
            ret@.len() == j,
            forall|k: int| 0 <= k < j ==> (#[trigger] ret@[k]).val() == pow5(ark_spec(
                rounds_spec(s0, cv, mv, nf, np, t as nat, h, k as nat),
                cv,
                (t * (k + n_rounds_f / 2)) as int,
            )[0]),
        decreases n_rounds_p - j,
    {
        proof {
            assert(t * (j + n_rounds_f / 2) <= t * ((np - 1) + n_rounds_f / 2)) by (nonlinear_arith)
                requires
                    j < np,
            ;
        }
        let ghost before = vals(state@);
        ark(&mut state, c, t * (j + n_rounds_f / 2));
        let ghost arked = vals(state@);
        let y = fifth_first(&mut state);
        ret.push(y);
        let ghost boxed = vals(state@);
        state = mix(&state, m);
        proof {
            let i = (h + j) as nat;
            assert(!is_full_round(nf, np, i));
            assert((i * t) as int == (t * (j + n_rounds_f / 2)) as int) by (nonlinear_arith)
                requires
                    i == h + j,
                    h == n_rounds_f / 2,
            ;
            assert(boxed =~= sbox_spec(nf, np, arked, i));
            assert(rounds_spec(s0, cv, mv, nf, np, t as nat, h, (j + 1) as nat) == crate::folding::poseidon::round_spec(
                rounds_spec(s0, cv, mv, nf, np, t as nat, h, j as nat), cv, mv, nf, np, t as nat, i));
        }
        j = j + 1;
    }
    let ghost adv = ret@;
    let mut k: usize = 0;
    while k < state.len()
        invariant
            k <= state@.len(),
            ret@.len() == n_rounds_p + k,
            forall|a: int| 0 <= a < n_rounds_p ==> #[trigger] ret@[a] == adv[a],
            adv.len() == n_rounds_p,
            forall|a: int| 0 <= a < k ==> #[trigger] ret@[n_rounds_p + a] == state@[a],
        decreases state@.len() - k,
    {
        ret.push(state[k]);
        k = k + 1;
    }
    proof {
        assert forall|a: int| 0 <= a < state@.len() implies #[trigger] vals(ret@).skip(n_rounds_p as int)[a] == vals(state@)[a] by {
            assert(ret@[n_rounds_p + a] == state@[a]);
        }
        assert(vals(ret@).skip(n_rounds_p as int) =~= vals(state@));
    }
    ret
}

/// The constraint of the partial rounds: with `input_advices` in place of
/// the fifth powers, the differences of each fifth power to
/// `output_advices`, then of the final state to `output_state`.
pub fn poseidon_partial_rounds_constraint(
    input_state: &[Fe],
    output_state: &[Fe],
    input_advices: &[Fe],
    output_advices: &[Fe],
    c: &Vec<Fe>,
    m: &Vec<Vec<Fe>>,
    n_rounds_f: usize,
    n_rounds_p: usize,
    t: usize,
) -> (r: Vec<Fe>)
    requires
        partial_fits(input_state@.len(), c@, m@, n_rounds_f as nat, n_rounds_p as nat, t as nat),
        input_advices@.len() >= n_rounds_p,
        output_advices@.len() >= n_rounds_p,
        output_state@.len() >= input_state@.len(),
    ensures
        r@.len() == n_rounds_p + input_state@.len(),
        forall|j: int| 0 <= j < n_rounds_p ==> (#[trigger] r@[j]).val() == fsub(pow5(ark_spec(
            partial_with_advice(vals(input_state@), vals(c@), mat_vals(m@), vals(input_advices@), n_rounds_f as nat, t as nat, j as nat),
            vals(c@),
            (t * (j + n_rounds_f / 2)) as int,
        )[0]), output_advices@[j].val()),
        forall|k: int| 0 <= k < input_state@.len() ==> (#[trigger] r@[n_rounds_p + k]).val() == fsub(
            partial_with_advice(vals(input_state@), vals(c@), mat_vals(m@), vals(input_advices@), n_rounds_f as nat, t as nat, n_rounds_p as nat)[k],
            output_state@[k].val(),
        ),
{
    let ghost s0 = vals(input_state@);
    let ghost cv = vals(c@);
    let ghost mv = mat_vals(m@);
    let ghost av = vals(input_advices@);
    let ghost nf = n_rounds_f as nat;
    let clen = c.len();
    let mut state = vstd::slice::slice_to_vec(input_state);
    let mut ret: Vec<Fe> = Vec::new();
    let mut j: usize = 0;
    while j < n_rounds_p
        invariant
            partial_fits(input_state@.len(), c@, m@, nf, n_rounds_p as nat, t as nat),
            clen == c@.len(),
            s0 == vals(input_state@),
            cv == vals(c@),
            mv == mat_vals(m@),
            av == vals(input_advices@),
            nf == n_rounds_f,
            input_advices@.len() >= n_rounds_p,
            output_advices@.len() >= n_rounds_p,
            j <= n_rounds_p,
            state@.len() == input_state@.len(),
            vals(state@) == partial_with_advice(s0, cv, mv, av, nf, t as nat, j as nat),
            ret@.len() == j,
            forall|k: int| 0 <= k < j ==> (#[trigger] ret@[k]).val() == fsub(pow5(ark_spec(
                partial_with_advice(s0, cv, mv, av, nf, t as nat, k as nat),
                cv,
                (t * (k + n_rounds_f / 2)) as int,
            )[0]), output_advices@[k].val()),
        decreases n_rounds_p - j,
    {
        proof {
            assert(t * (j + n_rounds_f / 2) <= t * ((n_rounds_p - 1) + n_rounds_f / 2)) by (nonlinear_arith)
                requires
                    j < n_rounds_p,
            ;
        }
        ark(&mut state, c, t * (j + n_rounds_f / 2));
        let ghost arked = vals(state@);
        let x = state[0];
        let sq = x.square();
        let q = sq.square();
        let p5 = x.mul(&q);
        proof {
            crate::field::lemma_fmul_comm(x.val(), q.val());
        }
        ret.push(p5.sub(&output_advices[j]));
        state.set(0, input_advices[j]);
        let ghost replaced = vals(state@);
        state = mix(&state, m);
        proof {
            assert(replaced =~= arked.update(0, av[j as int]));
            assert((t * (j + n_rounds_f / 2)) as int == (t * ((j + 1 - 1) + nf / 2)) as int);
        }
        j = j + 1;
    }
    let ghost first = ret@;
    let mut k: usize = 0;
    while k < state.len()
        invariant
            k <= state@.len(),
            state@.len() == input_state@.len(),
            output_state@.len() >= input_state@.len(),
            ret@.len() == n_rounds_p + k,
            first.len() == n_rounds_p,
            forall|a: int| 0 <= a < n_rounds_p ==> #[trigger] ret@[a] == first[a],
            forall|a: int| 0 <= a < k ==> (#[trigger] ret@[n_rounds_p + a]).val() == fsub(state@[a].val(), output_state@[a].val()),
        decreases state@.len() - k,
    {
        ret.push(state[k].sub(&output_state[k]));
        k = k + 1;
    }
    ret
}

/// The constants of the width of the state fit rounds up to `last`.
pub open spec fn cfg_fits(k: Constants, t: nat, last: nat) -> bool {
    &&& t >= 2
    &&& t - 2 < k.c@.len()
    &&& t - 2 < k.m@.len()
    &&& t - 2 < k.n_rounds_p@.len()
    &&& (last + 1) * t <= k.c@[t - 2]@.len()
    &&& mat_fits(k.m@[t - 2]@, t)
    &&& k.n_rounds_f / 2 + k.n_rounds_p@[t - 2] <= usize::MAX
}

/// `ark(i) . sbox(i) . mix . ark(i + 1)` on the constants of the state's width.
pub open spec fn mixed_start_spec(k: Constants, state: Seq<nat>, i: nat) -> Seq<nat> {
    let t = state.len();
    let c = vals(k.c@[t - 2]@);
    let m = mat_vals(k.m@[t - 2]@);
    let nf = k.n_rounds_f as nat;
    let np = k.n_rounds_p@[t - 2] as nat;
    ark_spec(mix_spec(sbox_spec(nf, np, ark_spec(state, c, (t * i) as int), i), m), c, (t * (i + 1)) as int)
}

/// `sbox(i) . mix . ark(i + 1) . sbox(i + 1)`.
pub open spec fn mixed_mid_spec(k: Constants, state: Seq<nat>, i: nat) -> Seq<nat> {
    let t = state.len();
    let c = vals(k.c@[t - 2]@);
    let m = mat_vals(k.m@[t - 2]@);
    let nf = k.n_rounds_f as nat;
    let np = k.n_rounds_p@[t - 2] as nat;
    sbox_spec(nf, np, ark_spec(mix_spec(sbox_spec(nf, np, state, i), m), c, (t * (i + 1)) as int), (i + 1) as nat)
}

/// `mix . ark(i) . sbox(i) . mix`.
pub open spec fn mixed_end_spec(k: Constants, state: Seq<nat>, i: nat) -> Seq<nat> {
    let t = state.len();
    let c = vals(k.c@[t - 2]@);
    let m = mat_vals(k.m@[t - 2]@);
    let nf = k.n_rounds_f as nat;
    let np = k.n_rounds_p@[t - 2] as nat;
    mix_spec(sbox_spec(nf, np, ark_spec(mix_spec(state, m), c, (t * i) as int), i), m)
}

/// The first piece of the mixed strategy from round `i`.
pub fn poseidon_mixed_strategy_start(state: &[Fe], i: usize, cfg: &Poseidon) -> (r: Vec<Fe>)
    requires
        cfg_fits(cfg.constants, state@.len(), (i + 1) as nat),
    ensures
        vals(r@) == mixed_start_spec(cfg.constants, vals(state@), i as nat),
{
    let t = state.len();
    let c = &cfg.constants.c[t - 2];
    let m = &cfg.constants.m[t - 2];
    let n_rounds_f = cfg.constants.n_rounds_f;
    let n_rounds_p = cfg.constants.n_rounds_p[t - 2];
    let clen = c.len();
    proof {
        assert(t * i + t <= (i + 1) * t) by (nonlinear_arith);
        assert(t * (i + 1) + t == (i + 2) * t) by (nonlinear_arith);
        assert(t * i <= t * (i + 1)) by (nonlinear_arith);
        assert(i + 2 <= (i + 2) * t) by (nonlinear_arith)
            requires
                t >= 2,
        ;
    }
    let mut s = vstd::slice::slice_to_vec(state);
    ark(&mut s, c, t * i);
    sbox(n_rounds_f, n_rounds_p, &mut s, i);
    s = mix(&s, m);
    ark(&mut s, c, t * (i + 1));
    s
}

/// The middle piece of the mixed strategy from round `i`.
pub fn poseidon_mixed_strategy_mid(state: &[Fe], i: usize, cfg: &Poseidon) -> (r: Vec<Fe>)
    requires
        cfg_fits(cfg.constants, state@.len(), (i + 1) as nat),
    ensures
        vals(r@) == mixed_mid_spec(cfg.constants, vals(state@), i as nat),
{
    let t = state.len();
    let c = &cfg.constants.c[t - 2];
    let m = &cfg.constants.m[t - 2];
    let n_rounds_f = cfg.constants.n_rounds_f;
    let n_rounds_p = cfg.constants.n_rounds_p[t - 2];
    let clen = c.len();
    proof {
        assert(t * (i + 1) + t == (i + 2) * t) by (nonlinear_arith);
        assert(i + 2 <= (i + 2) * t) by (nonlinear_arith)
            requires
                t >= 2,
        ;
    }
    let mut s = vstd::slice::slice_to_vec(state);
    sbox(n_rounds_f, n_rounds_p, &mut s, i);
    s = mix(&s, m);
    ark(&mut s, c, t * (i + 1));
    sbox(n_rounds_f, n_rounds_p, &mut s, i + 1);
    s
}

/// The last piece of the mixed strategy, ending in round `i`.
pub fn poseidon_mixed_strategy_end(state: &[Fe], i: usize, cfg: &Poseidon) -> (r: Vec<Fe>)
    requires
        cfg_fits(cfg.constants, state@.len(), i as nat),
    ensures
        vals(r@) == mixed_end_spec(cfg.constants, vals(state@), i as nat),
{
    let t = state.len();
    let c = &cfg.constants.c[t - 2];
    let m = &cfg.constants.m[t - 2];
    let n_rounds_f = cfg.constants.n_rounds_f;
    let n_rounds_p = cfg.constants.n_rounds_p[t - 2];
    let clen = c.len();
    proof {
        assert(t * i + t == (i + 1) * t) by (nonlinear_arith);
    }
    let mut s = vstd::slice::slice_to_vec(state);
    s = mix(&s, m);
    ark(&mut s, c, t * i);
    sbox(n_rounds_f, n_rounds_p, &mut s, i);
    mix(&s, m)
}

/// With advice that is the true fifth power of each partial round, the
/// rounds with advice are the true rounds.
proof fn lemma_true_advice(s0: Seq<nat>, c: Seq<nat>, m: Seq<Seq<nat>>, adv: Seq<nat>, nf: nat, np: nat, t: nat, j: nat)
    requires
        j <= np,
        forall|k: int| 0 <= k < np ==> #[trigger] adv[k] == pow5(ark_spec(
            rounds_spec(s0, c, m, nf, np, t, nf / 2, k as nat),
            c,
            (t * (k + nf / 2)) as int,
        )[0]),
    ensures
        partial_with_advice(s0, c, m, adv, nf, t, j) == rounds_spec(s0, c, m, nf, np, t, nf / 2, j),
    decreases j,
{
    if j > 0 {
        let k = (j - 1) as nat;
        lemma_true_advice(s0, c, m, adv, nf, np, t, k);
        let i = (nf / 2 + k) as nat;
        assert(!is_full_round(nf, np, i));
        assert((i * t) as int == (t * (k + nf / 2)) as int) by (nonlinear_arith)
            requires
                i == nf / 2 + k,
        ;
        assert(adv[k as int] == pow5(ark_spec(rounds_spec(s0, c, m, nf, np, t, nf / 2, k), c, (t * (k + nf / 2)) as int)[0]));
    }
}

/// The advice of the partial rounds satisfies their constraint: with the
/// advised fifth powers taken both as the values that replace the S-box and
/// as the values it is checked against, and the advised final state as the
/// output, every entry of the constraint is zero.
pub proof fn law_partial_advice_satisfies_constraint(
    s0: Seq<nat>,
    c: Seq<nat>,
    m: Seq<Seq<nat>>,
    adv: Seq<nat>,
    nf: nat,
    np: nat,
    t: nat,
)
    requires
        forall|i: int| 0 <= i < s0.len() ==> #[trigger] s0[i] < crate::field::field_modulus(),
        adv.len() == np + s0.len(),
        forall|k: int| 0 <= k < np ==> #[trigger] adv[k] == pow5(ark_spec(
            rounds_spec(s0, c, m, nf, np, t, nf / 2, k as nat),
            c,
            (t * (k + nf / 2)) as int,
        )[0]),
        adv.skip(np as int) == rounds_spec(s0, c, m, nf, np, t, nf / 2, np),
    ensures
        forall|k: int| 0 <= k < np ==> fsub(
            pow5(ark_spec(partial_with_advice(s0, c, m, adv, nf, t, k as nat), c, (t * (k + nf / 2)) as int)[0]),
            #[trigger] adv[k],
        ) == 0,
        forall|k: int| 0 <= k < s0.len() ==> fsub(
            partial_with_advice(s0, c, m, adv, nf, t, np)[k],
            #[trigger] adv.skip(np as int)[k],
        ) == 0,
{
    assert forall|k: int| 0 <= k < np implies fsub(
        pow5(ark_spec(partial_with_advice(s0, c, m, adv, nf, t, k as nat), c, (t * (k + nf / 2)) as int)[0]),
        #[trigger] adv[k],
    ) == 0 by {
        lemma_true_advice(s0, c, m, adv, nf, np, t, k as nat);
        lemma_fsub_self(adv[k]);
    }
    lemma_true_advice(s0, c, m, adv, nf, np, t, np);
    if s0.len() > 0 {
        lemma_rounds_canonical(s0, c, m, nf, np, t, nf / 2, np);
        let fin = partial_with_advice(s0, c, m, adv, nf, t, np);
        assert forall|k: int| 0 <= k < s0.len() implies fsub(
            fin[k],
            #[trigger] adv.skip(np as int)[k],
        ) == 0 by {
            lemma_fsub_self(fin[k]);
        }
    }
}

/// A value minus itself is zero in the field.
proof fn lemma_fsub_self(x: nat)
    ensures
        fsub(x, x) == 0,
{
}

/// Rounds keep the state canonical.
proof fn lemma_rounds_canonical(s0: Seq<nat>, c: Seq<nat>, m: Seq<Seq<nat>>, nf: nat, np: nat, t: nat, i: nat, k: nat)
    requires
        s0.len() > 0,
        forall|a: int| 0 <= a < s0.len() ==> #[trigger] s0[a] < crate::field::field_modulus(),
    ensures
        rounds_spec(s0, c, m, nf, np, t, i, k).len() == s0.len(),
        forall|a: int| 0 <= a < s0.len() ==> #[trigger] rounds_spec(s0, c, m, nf, np, t, i, k)[a] < crate::field::field_modulus(),
    decreases k,
{
    if k > 0 {
        lemma_rounds_canonical(s0, c, m, nf, np, t, i, (k - 1) as nat);
        let st = rounds_spec(s0, c, m, nf, np, t, i, k);
        let prev = rounds_spec(s0, c, m, nf, np, t, i, (k - 1) as nat);
        let ar = ark_spec(prev, c, ((i + k - 1) * t) as int);
        let sb = sbox_spec(nf, np, ar, (i + k - 1) as nat);
        assert(ar.len() == prev.len());
        assert(sb.len() == ar.len());
        assert(st == mix_spec(sb, m));
        assert forall|a: int| 0 <= a < s0.len() implies #[trigger] st[a] < crate::field::field_modulus() by {
            let terms = Seq::new(sb.len(), |j: int| crate::field::fmul(m[a][j], sb[j]));
            assert(st[a] == crate::field::fsum(terms));
        }
    }
}

/// A gate of the partial rounds of width `t` of the configuration.
pub fn poseidon_partial_rounds_gate(cfg: &Rc<Poseidon>, t: usize) -> (r: LibGate)
    requires
        kind_wf(GateKind::PoseidonPartial { cfg: *cfg, t }),
    ensures
        r.kind() == (GateKind::PoseidonPartial { cfg: *cfg, t }),
{
    LibGate::new(GateKind::PoseidonPartial { cfg: Rc::clone(cfg), t })
}

/// The sequence of `n` variables from `a`.
fn sub_vars(v: &Vec<Variable>, a: usize, n: usize) -> (r: Vec<Variable>)
    requires
        a + n <= v@.len(),
    ensures
        r@ == v@.subrange(a as int, (a + n) as int),
{
    proof {
        assert(v@.len() == v.len());
    }
    let s = vstd::slice::slice_subrange(v.as_slice(), a, a + n);
    copy_vars(s)
}

/// Appends `b` to `a`.
fn append_vars(a: &mut Vec<Variable>, b: &[Variable])
    ensures
        final(a)@ == old(a)@ + b@,
{
    let mut i: usize = 0;
    while i < b.len()
        invariant
            i <= b@.len(),
            a@ == old(a)@ + b@.take(i as int),
        decreases b@.len() - i,
    {
        a.push(b[i]);
        i = i + 1;
        proof {
            assert(a@ =~= old(a)@ + b@.take(i as int));
        }
    }
    proof {
        assert(b@.take(b@.len() as int) =~= b@);
    }
}

/// The partial rounds of Poseidon on the state `inp`: an advice computes
/// the first element of each state after its S-box and the final state, and
/// one gate checks every fifth power against that advice and the final
/// state against the rounds. Returns the final state.
pub fn poseidon_partial_rounds_gadget(circuit: &mut Circuit, cfg: &Rc<Poseidon>, inp: Vec<Variable>, round: usize) -> (r: Vec<Variable>)
    requires
        old(circuit).wf(),
        round < old(circuit).rounds(),
        kind_wf(GateKind::PoseidonPartial { cfg: *cfg, t: inp@.len() as usize }),
        forall|a: int| 0 <= a < inp@.len() ==> old(circuit).has_var(#[trigger] inp@[a]) && inp@[a].round <= round,
        old(circuit).room(2 * (partial_rounds(cfg.constants, inp@.len()) + inp@.len())),
    ensures
        final(circuit).grown(old(circuit), 2 * (partial_rounds(cfg.constants, inp@.len()) + inp@.len())),
        r@.len() == inp@.len(),
        final(circuit).fresh(old(circuit), r@, round as nat, Visibility::Private),
        pushed(final(circuit).ops_view(), old(circuit).ops_view(), round as int),
        ({
            let np = partial_rounds(cfg.constants, inp@.len());
            let tmp = op_outputs(final(circuit).ops_view()[round as int].last());
            &&& is_advice(
                final(circuit).ops_view()[round as int].last(),
                inp@,
                tmp,
                AdviceKind::PoseidonPartial { cfg: *cfg, t: inp@.len() as usize },
            )
            &&& tmp.len() == np + inp@.len()
            &&& r@ == tmp.skip(np as int)
            &&& has_gate(
                final(circuit).cs.all_constraints(),
                GateKind::PoseidonPartial { cfg: *cfg, t: inp@.len() as usize },
                tmp.take(np as int) + tmp.take(np as int) + inp@ + r@,
            )
        }),
{
    let t = inp.len();
    let np = cfg.constants.n_rounds_p[t - 2];
    let ghost before = *old(circuit);
    let tmp = circuit.advice(round, AdviceKind::PoseidonPartial { cfg: Rc::clone(cfg), t }, copy_vars(inp.as_slice()));
    let ghost mid = *circuit;
    proof {
        lemma_room_step(old(circuit), &mid, (np + t) as nat, (np + t) as nat);
    }
    let adv = sub_vars(&tmp, 0, np);
    let out = sub_vars(&tmp, np, t);
    let mut io = copy_vars(adv.as_slice());
    append_vars(&mut io, adv.as_slice());
    append_vars(&mut io, inp.as_slice());
    append_vars(&mut io, out.as_slice());
    proof {
        assert(out@ =~= tmp@.skip(np as int));
        assert(adv@ =~= tmp@.take(np as int));
        assert forall|a: int| 0 <= a < io@.len() implies mid.has_var(#[trigger] io@[a]) by {
            if a < np {
                assert(io@[a] == tmp@[a]);
            } else if a < 2 * np {
                assert(io@[a] == tmp@[a - np]);
            } else if a < 2 * np + t {
                assert(io@[a] == inp@[a - 2 * np]);
            } else {
                assert(io@[a] == tmp@[a - 2 * np - t + np]);
            }
        }
    }
    circuit.constrain(io.as_slice(), poseidon_partial_rounds_gate(cfg, t));
    proof {
        lemma_grown_trans(old(circuit), &mid, circuit, (np + t) as nat, (np + t) as nat);
        lemma_fresh_kept(old(circuit), &mid, circuit, tmp@, round as nat, Visibility::Private);
        assert forall|a: int| 0 <= a < out@.len() implies #[trigger] circuit.has_var(out@[a]) && !old(circuit).has_var(out@[a]) by {
            assert(out@[a] == tmp@[np + a]);
            assert(circuit.has_var(tmp@[np + a]));
        }
        assert forall|a: int| 0 <= a < out@.len() implies (#[trigger] out@[a]).round == round && out@[a].visibility == Visibility::Private by {
            assert(out@[a] == tmp@[np + a]);
        }
        assert forall|a: int, b: int| 0 <= a < b < out@.len() implies out@[a] != out@[b] by {
            assert(out@[a] == tmp@[np + a]);
            assert(out@[b] == tmp@[np + b]);
        }
    }
    out
}

/// The width of the state of the full rounds from `start` on `len` inputs:
/// from round 0 a zero is put first.
pub open spec fn width(len: nat, start: usize) -> nat {
    if start == 0 {
        len + 1
    } else {
        len
    }
}

/// Where the blocks of `k` rounds from `i` end once they reach `finish`.
pub open spec fn blocks_end(i: nat, finish: nat, k: nat) -> nat
    decreases if i < finish { finish - i } else { 0 },
{
    if k == 0 || i >= finish {
        i
    } else {
        blocks_end(i + k, finish, k)
    }
}

/// How many blocks of `k` rounds from `i` start before `finish`.
pub open spec fn blocks_count(i: nat, finish: nat, k: nat) -> nat
    decreases if i < finish { finish - i } else { 0 },
{
    if k == 0 || i >= finish {
        0
    } else {
        1 + blocks_count(i + k, finish, k)
    }
}

/// The round where the full rounds from `start` to `finish`, `k` at a time,
/// stop: the blocks (the first from 0 padded when `start` is 0), then the
/// rest of `(finish - start) % k` rounds.
pub open spec fn full_rounds_end(start: nat, finish: nat, k: nat) -> nat {
    let init = if start == 0 { k } else { start };
    blocks_end(init, finish, k) + ((finish - start) as nat) % k
}

/// The number of polynomial operations of the full rounds.
pub open spec fn full_rounds_ops(start: nat, finish: nat, k: nat) -> nat {
    let init = if start == 0 { k } else { start };
    blocks_count(init, finish, k) + 2
}

/// The full rounds of width `t` from `start` to `finish`, `k` at a time,
/// fit the constants, the degree bound and the machine.
pub open spec fn full_rounds_fit(cfg: Poseidon, t: nat, k: nat, start: nat, finish: nat, max_deg: nat) -> bool {
    let kc = cfg.constants;
    &&& t >= 2
    &&& t - 2 < kc.c@.len()
    &&& t - 2 < kc.m@.len()
    &&& t - 2 < kc.n_rounds_p@.len()
    &&& mat_fits(kc.m@[t - 2]@, t)
    &&& kc.n_rounds_f / 2 + kc.n_rounds_p@[t - 2] <= usize::MAX
    &&& 2 * t <= usize::MAX
    &&& k > 0
    &&& start < finish
    &&& finish <= kc.n_rounds_f / 2 || start >= kc.n_rounds_f / 2 + kc.n_rounds_p@[t - 2]
    &&& full_rounds_end(start, finish, k) * t <= kc.c@[t - 2]@.len()
    &&& full_rounds_end(start, finish, k) <= usize::MAX
    &&& pow(5, k) <= max_deg
}

proof fn lemma_blocks_step(i: nat, finish: nat, k: nat)
    requires
        k > 0,
        i < finish,
    ensures
        blocks_end(i, finish, k) == blocks_end(i + k, finish, k),
        blocks_count(i, finish, k) == 1 + blocks_count(i + k, finish, k),
        i + k <= blocks_end(i + k, finish, k),
{
    lemma_blocks_end_ge(i + k, finish, k);
}

proof fn lemma_blocks_end_ge(i: nat, finish: nat, k: nat)
    ensures
        i <= blocks_end(i, finish, k),
    decreases if i < finish { finish - i } else { 0 },
{
    if k > 0 && i < finish {
        lemma_blocks_end_ge(i + k, finish, k);
    }
}

/// Block `[i, i + r)` within the end fits.
proof fn lemma_block_fits(cfg: &Poseidon, t: nat, k: nat, start: nat, finish: nat, max_deg: nat, i: nat, r: nat)
    requires
        full_rounds_fit(*cfg, t, k, start, finish, max_deg),
        max_deg <= usize::MAX,
        0 < r <= k,
        i + r <= full_rounds_end(start, finish, k),
    ensures
        rounds_fit(cfg.constants, t, i, r),
        pow(5, r) <= max_deg,
        pow(5, r) > 0,
{
    vstd::arithmetic::power::lemma_pow_positive(5, r);
    let e = full_rounds_end(start, finish, k);
    assert((i + r - 1) * t + t == (i + r) * t) by (nonlinear_arith);
    assert((i + r) * t <= e * t) by (nonlinear_arith)
        requires
            i + r <= e,
    ;
    if r < k {
        vstd::arithmetic::power::lemma_pow_increases(5, r, k);
    }
}

/// The number of blocks of `k` full rounds from `start` while a block starts
/// before `finish` (from round 0, the first block is the padded one).
pub open spec fn full_blocks(start: nat, finish: nat, k: nat) -> nat {
    let init = if start == 0 { k } else { start };
    blocks_count(init, finish, k) + if start == 0 { 1nat } else { 0nat }
}

/// Block `j` of the full rounds: the blocks of `k` rounds from `start`, then
/// one of the `rem` rounds left, which starts where the blocks ended.
pub open spec fn full_round_block(start: nat, k: nat, nb: nat, rem: nat, j: nat) -> (nat, nat) {
    if j < nb {
        (start + k * j, k)
    } else {
        (start + k * nb, rem)
    }
}

/// The constraints hold the rounds `i..i + r` of width `t` from the state
/// `x` to the state `y` (with `pad`, `x` is the state but its first zero).
pub open spec fn rounds_gate(
    cs: Seq<crate::constraint_system::Constraint<LibGate>>,
    cfg: Rc<Poseidon>,
    t: nat,
    i: nat,
    r: nat,
    pad: bool,
    x: Seq<Variable>,
    y: Seq<Variable>,
) -> bool {
    has_gate(
        cs,
        GateKind::Applied { poly: PolyKind::PoseidonRounds { cfg, t: t as usize, i: i as usize, k: r as usize, pad } },
        x + y,
    )
}

/// Step `j` of the chain of states of the full rounds.
pub open spec fn chain_step(
    cs: Seq<crate::constraint_system::Constraint<LibGate>>,
    cfg: Rc<Poseidon>,
    t: nat,
    start: nat,
    k: nat,
    nb: nat,
    rem: nat,
    states: Seq<Seq<Variable>>,
    j: int,
) -> bool {
    let b = full_round_block(start, k, nb, rem, j as nat);
    rounds_gate(cs, cfg, t, b.0, b.1, start == 0 && j == 0, states[j], states[j + 1])
}

/// The states from `inp` to `out` through the full rounds from `start`:
/// `full_blocks` blocks of `k` rounds, then, when `(finish - start) % k` is
/// not zero, a block of that many rounds more. The rounds applied thus run
/// from `start` to `full_rounds_end`, which is past `finish` when the blocks
/// overshoot it.
pub open spec fn full_rounds_chain(
    cs: Seq<crate::constraint_system::Constraint<LibGate>>,
    cfg: Rc<Poseidon>,
    t: nat,
    start: nat,
    finish: nat,
    k: nat,
    inp: Seq<Variable>,
    out: Seq<Variable>,
    states: Seq<Seq<Variable>>,
) -> bool {
    let nb = full_blocks(start, finish, k);
    let rem = ((finish - start) as nat) % k;
    let steps = nb + if rem > 0 { 1nat } else { 0nat };
    &&& states.len() == steps + 1
    &&& states[0] == inp
    &&& states[steps as int] == out
    &&& forall|j: int| 0 <= j < steps ==> #[trigger] chain_step(cs, cfg, t, start, k, nb, rem, states, j)
}

proof fn lemma_chain_step_kept(
    before: &Circuit,
    after: &Circuit,
    cfg: Rc<Poseidon>,
    t: nat,
    start: nat,
    k: nat,
    nb: nat,
    rem: nat,
    states: Seq<Seq<Variable>>,
    j: int,
)
    requires
        after.extends(before),
        chain_step(before.cs.all_constraints(), cfg, t, start, k, nb, rem, states, j),
    ensures
        chain_step(after.cs.all_constraints(), cfg, t, start, k, nb, rem, states, j),
{
    let b = full_round_block(start, k, nb, rem, j as nat);
    crate::circuit::lemma_gate_kept(
        before,
        after,
        GateKind::Applied {
            poly: PolyKind::PoseidonRounds { cfg, t: t as usize, i: b.0 as usize, k: b.1 as usize, pad: start == 0 && j == 0 },
        },
        states[j] + states[j + 1],
    );
}

/// Rounds `i..i + r` of width `t` with the constants of `cfg`.
pub open spec fn cfg_rounds(cfg: Rc<Poseidon>, t: nat, state: Seq<nat>, i: nat, r: nat) -> Seq<nat> {
    rounds_spec(
        state,
        consts_c(cfg.constants, t),
        consts_m(cfg.constants, t),
        cfg.constants.n_rounds_f as nat,
        cfg.constants.n_rounds_p@[t - 2] as nat,
        t,
        i,
        r,
    )
}

/// The facts on rounds of the model, for the constants of `cfg`.
proof fn lemma_cfg_rounds(cfg: Rc<Poseidon>, t: nat, state: Seq<nat>, i: nat, a: nat, b: nat)
    requires
        state.len() > 0,
    ensures
        cfg_rounds(cfg, t, state, i, a).len() == state.len(),
        cfg_rounds(cfg, t, cfg_rounds(cfg, t, state, i, a), i + a, b) == cfg_rounds(cfg, t, state, i, a + b),
        a > 0 ==> forall|j: int| 0 <= j < state.len() ==> #[trigger] cfg_rounds(cfg, t, state, i, a)[j] < crate::field::field_modulus(),
{
    let p = *cfg;
    let k = p.constants;
    let cc = consts_c(k, t);
    let mm = consts_m(k, t);
    let nf = k.n_rounds_f as nat;
    let np = k.n_rounds_p@[t - 2] as nat;
    lemma_rounds_len(state, cc, mm, nf, np, t, i, a);
    lemma_rounds_concat(state, cc, mm, nf, np, t, i, a, b);
    if a > 0 {
        lemma_rounds_lt(state, cc, mm, nf, np, t, i, a);
    }
}

/// The rounds that the first `j` steps of a chain of full rounds cover:
/// `j` blocks of `k`, then, past the `nb` blocks, the `rem` rounds left.
pub open spec fn chain_rounds(k: nat, nb: nat, rem: nat, j: nat) -> nat {
    if j <= nb {
        k * j
    } else {
        k * nb + rem
    }
}

/// The blocks of `k` rounds from `i` end `k` rounds per block after `i`.
proof fn lemma_blocks_end_count(i: nat, finish: nat, k: nat)
    requires
        k > 0,
    ensures
        blocks_end(i, finish, k) == i + k * blocks_count(i, finish, k),
    decreases if i < finish { finish - i } else { 0 },
{
    if i < finish {
        lemma_blocks_step(i, finish, k);
        lemma_blocks_end_count(i + k, finish, k);
        assert(i + k + k * blocks_count(i + k, finish, k) == i + k * (1 + blocks_count(i + k, finish, k))) by (nonlinear_arith);
    } else {
        assert(k * 0 == 0) by (nonlinear_arith);
    }
}

/// Blocks of one round from `i` to `finish` are `finish - i` of them.
proof fn lemma_blocks_count_one(i: nat, finish: nat)
    ensures
        i <= finish ==> blocks_count(i, finish, 1) == finish - i,
        blocks_end(i, finish, 1) == if i <= finish { finish } else { i },
    decreases if i < finish { finish - i } else { 0 },
{
    if i < finish {
        lemma_blocks_count_one(i + 1, finish);
    }
}

/// The blocks of the full rounds and the rounds left end at `full_rounds_end`.
proof fn lemma_full_blocks_end(start: nat, finish: nat, k: nat)
    requires
        k > 0,
    ensures
        start + k * full_blocks(start, finish, k) + ((finish - start) as nat) % k == full_rounds_end(start, finish, k),
{
    let init = if start == 0 { k } else { start };
    let bc = blocks_count(init, finish, k);
    lemma_blocks_end_count(init, finish, k);
    if start == 0 {
        assert(k * (bc + 1) == k + k * bc) by (nonlinear_arith);
    }
}

/// The state after the first `j` steps of a chain of full rounds whose
/// constraints hold.
#[verifier::spinoff_prover]
proof fn lemma_chain_values(
    c: Circuit,
    w: CSWtns,
    cfg: Rc<Poseidon>,
    t: nat,
    start: nat,
    finish: nat,
    k: nat,
    inp: Seq<Variable>,
    out: Seq<Variable>,
    states: Seq<Seq<Variable>>,
    j: nat,
)
    requires
        c.wf(),
        forall|i: int| 0 <= i < c.cs.all_constraints().len() ==> #[trigger] constraint_holds(c.cs.all_constraints()[i], w),
        full_rounds_fit(*cfg, t, k, start, finish, c.max_deg()),
        t == if start == 0 { inp.len() + 1 } else { inp.len() },
        full_rounds_chain(c.cs.all_constraints(), cfg, t, start, finish, k, inp, out, states),
        j < states.len(),
    ensures
        states[j as int].len() == if start == 0 && j == 0 { (t - 1) as nat } else { t },
        padded(assigned_vals(w, states[j as int]), start == 0 && j == 0) == cfg_rounds(
            cfg,
            t,
            padded(assigned_vals(w, inp), start == 0),
            start,
            chain_rounds(k, full_blocks(start, finish, k), ((finish - start) as nat) % k, j),
        ),
    decreases j,
{
    let nb = full_blocks(start, finish, k);
    let rem = ((finish - start) as nat) % k;
    let p0 = padded(assigned_vals(w, inp), start == 0);
    let e = full_rounds_end(start, finish, k);
    if j == 0 {
        assert(k * 0 == 0) by (nonlinear_arith);
        assert(chain_rounds(k, nb, rem, 0) == 0);
        assert(cfg_rounds(cfg, t, p0, start, 0) == p0);
        assert(padded(assigned_vals(w, states[0]), start == 0) == p0);
    } else {
        let i = (j - 1) as nat;
        lemma_chain_values(c, w, cfg, t, start, finish, k, inp, out, states, i);
        assert(chain_step(c.cs.all_constraints(), cfg, t, start, k, nb, rem, states, i as int));
        let b = full_round_block(start, k, nb, rem, i);
        let pad = start == 0 && i == 0;
        lemma_full_blocks_end(start, finish, k);
        assert(start + k * nb + rem == e);
        let ci = chain_rounds(k, nb, rem, i);
        let cj = chain_rounds(k, nb, rem, j);
        if i < nb {
            assert(b.0 == start + k * i && b.1 == k);
            assert(k * i + k == k * j) by (nonlinear_arith)
                requires
                    j == i + 1,
            ;
            assert(k * j <= k * nb) by (nonlinear_arith)
                requires
                    j <= nb,
            ;
            assert(k * j >= 1) by (nonlinear_arith)
                requires
                    j >= 1,
                    k >= 1,
            ;
        } else {
            assert(i == nb && rem > 0);
            assert(b.0 == start + k * nb && b.1 == rem);
        }
        assert(b.0 == start + ci && cj == ci + b.1 && b.1 >= 1 && b.0 + b.1 <= e);
        let poly = PolyKind::PoseidonRounds { cfg, t: t as usize, i: b.0 as usize, k: b.1 as usize, pad };
        law_applied_gate_sound(c, w, poly, states[i as int], states[j as int]);
        lemma_cfg_rounds(cfg, t, p0, start, ci, b.1);
        lemma_cfg_rounds(cfg, t, p0, start, cj, 0);
        let r = cfg_rounds(cfg, t, p0, start, cj);
        let ys = assigned_vals(w, states[j as int]);
        assert forall|a: int| 0 <= a < ys.len() implies #[trigger] vals(ys)[a] == r[a] by {
            crate::field::lemma_fm_canonical(r[a] as int);
        }
        assert(padded(ys, false) =~= r);
    }
}

/// Soundness of the full rounds: where every constraint of the circuit
/// holds on a witness, the end of a chain of full rounds of width `t` holds
/// the Poseidon state after the rounds `start..full_rounds_end` of the state
/// at its start, with a zero put first when `start` is 0.
pub proof fn law_full_rounds_sound(
    c: Circuit,
    w: CSWtns,
    cfg: Rc<Poseidon>,
    t: nat,
    start: nat,
    finish: nat,
    k: nat,
    inp: Seq<Variable>,
    out: Seq<Variable>,
    states: Seq<Seq<Variable>>,
)
    requires
        c.wf(),
        forall|i: int| 0 <= i < c.cs.all_constraints().len() ==> #[trigger] constraint_holds(c.cs.all_constraints()[i], w),
        full_rounds_fit(*cfg, t, k, start, finish, c.max_deg()),
        t == if start == 0 { inp.len() + 1 } else { inp.len() },
        full_rounds_chain(c.cs.all_constraints(), cfg, t, start, finish, k, inp, out, states),
    ensures
        out.len() == t,
        vals(assigned_vals(w, out)) == cfg_rounds(
            cfg,
            t,
            padded(assigned_vals(w, inp), start == 0),
            start,
            (full_rounds_end(start, finish, k) - start) as nat,
        ),
{
    let nb = full_blocks(start, finish, k);
    let rem = ((finish - start) as nat) % k;
    let steps = nb + if rem > 0 { 1nat } else { 0nat };
    lemma_chain_values(c, w, cfg, t, start, finish, k, inp, out, states, steps);
    lemma_full_blocks_end(start, finish, k);
    assert(start == 0 ==> nb >= 1);
    assert(chain_rounds(k, nb, rem, steps) == full_rounds_end(start, finish, k) - start);
}

/// The full rounds of Poseidon of width `t` from round `start`, `k` rounds
/// per polynomial: a block of `k` rounds is applied as one polynomial of
/// degree `5^k` (the first, from round 0, on the state with a zero put
/// first) while a block starts before `finish`, then `(finish - start) % k`
/// rounds more. When `k` does not divide the rounds, the blocks overshoot
/// `finish`, and the rounds applied run to `full_rounds_end`. Returns the
/// state after them.
#[verifier::spinoff_prover]
#[verifier::rlimit(100)]
pub fn poseidon_full_rounds_gadget(
    circuit: &mut Circuit,
    cfg: &Rc<Poseidon>,
    k: usize,
    round: usize,
    inp: Vec<Variable>,
    start: usize,
    finish: usize,
) -> (r: Vec<Variable>)
    requires
        old(circuit).wf(),
        round < old(circuit).rounds(),
        full_rounds_fit(
            **cfg,
            width(inp@.len(), start),
            k as nat,
            start as nat,
            finish as nat,
            old(circuit).max_deg(),
        ),
        forall|a: int| 0 <= a < inp@.len() ==> old(circuit).has_var(#[trigger] inp@[a]) && inp@[a].round <= round,
        old(circuit).room(
            width(inp@.len(), start) * full_rounds_ops(start as nat, finish as nat, k as nat),
        ),
    ensures
        final(circuit).grown(
            old(circuit),
            width(inp@.len(), start) * full_rounds_ops(start as nat, finish as nat, k as nat),
        ),
        r@.len() == width(inp@.len(), start),
        final(circuit).fresh(old(circuit), r@, round as nat, Visibility::Private),
        exists|states: Seq<Seq<Variable>>|
            #[trigger] full_rounds_chain(
                final(circuit).cs.all_constraints(),
                *cfg,
                width(inp@.len(), start),
                start as nat,
                finish as nat,
                k as nat,
                inp@,
                r@,
                states,
            ),
{
    let t = if start == 0 { inp.len() + 1 } else { inp.len() };
    let ghost inp0 = inp@;
    let ghost mut states: Seq<Seq<Variable>> = seq![inp@];
    let ghost nb = full_blocks(start as nat, finish as nat, k as nat);
    let ghost remg = ((finish - start) as nat) % (k as nat);
    let ghost ops = full_rounds_ops(start as nat, finish as nat, k as nat);
    let ghost budget = t as nat * ops;
    let ghost e = full_rounds_end(start as nat, finish as nat, k as nat);
    let ghost maxd = old(circuit).max_deg();
    let rem = (finish - start) % k;
    let mut state = inp;
    let mut i = start;
    let mut used: usize = 0;
    let mut done: usize = 0;
    proof {
        lemma_extends_refl(old(circuit));
        crate::circuit::lemma_max_deg_bound(old(circuit));
    }
    if i == 0 {
        proof {
            lemma_blocks_end_ge(k as nat, finish as nat, k as nat);
            lemma_block_fits(&**cfg, t as nat, k as nat, start as nat, finish as nat, maxd, 0, k as nat);
            assert(t as nat * 1 <= budget) by (nonlinear_arith)
                requires
                    ops >= 2,
                    budget == t as nat * ops,
            ;
            lemma_room_left(old(circuit), old(circuit), 0, budget);
        }
        let ghost s0 = state@;
        state = circuit.apply(round, PolyKind::PoseidonRounds { cfg: Rc::clone(cfg), t, i: 0, k, pad: true }, state);
        proof {
            lemma_grown_mono(old(circuit), circuit, t as nat, t as nat);
            states = states.push(state@);
            assert(chain_step(circuit.cs.all_constraints(), *cfg, t as nat, start as nat, k as nat, nb, remg, states, 0)) by {
                assert(states[0] == s0 && states[1] == state@);
            }
        }
        i = k;
        used = t;
        done = 1;
    }
    let ghost init = if start == 0 { k as nat } else { start as nat };
    proof {
        assert(i == init);
        lemma_blocks_end_ge(init, finish as nat, k as nat);
    }
    while i < finish
        invariant
            full_rounds_fit(**cfg, t as nat, k as nat, start as nat, finish as nat, maxd),
            maxd == old(circuit).max_deg(),
            maxd <= usize::MAX,
            e == full_rounds_end(start as nat, finish as nat, k as nat),
            ops == full_rounds_ops(start as nat, finish as nat, k as nat),
            budget == t as nat * ops,
            init == if start == 0 { k as nat } else { start as nat },
            blocks_end(i as nat, finish as nat, k as nat) == blocks_end(init, finish as nat, k as nat),
            done + blocks_count(i as nat, finish as nat, k as nat) == blocks_count(init, finish as nat, k as nat) + if start == 0 { 1nat } else { 0nat },
            used == t * done,
            start == 0 ==> done >= 1,
            round < old(circuit).rounds(),
            old(circuit).room(budget),
            state@.len() == t,
            circuit.grown(old(circuit), used as nat),
            circuit.rounds() == old(circuit).rounds(),
            circuit.max_deg() == maxd,
            forall|a: int| 0 <= a < state@.len() ==> circuit.has_var(#[trigger] state@[a]) && state@[a].round <= round,
            done >= 1 ==> circuit.fresh(old(circuit), state@, round as nat, Visibility::Private),
            done == 0 ==> state@ == inp@ && t == inp@.len(),
            i <= blocks_end(init, finish as nat, k as nat),
            blocks_end(init, finish as nat, k as nat) <= e,
            i == start + k * done,
            t as nat == width(inp0.len(), start),
            nb == full_blocks(start as nat, finish as nat, k as nat),
            remg == ((finish - start) as nat) % (k as nat),
            done <= nb,
            states.len() == done + 1,
            states[0] == inp0,
            states[done as int] == state@,
            forall|j: int| 0 <= j < done ==> #[trigger] chain_step(circuit.cs.all_constraints(), *cfg, t as nat, start as nat, k as nat, nb, remg, states, j),
        decreases e - i,
    {
        let ghost prev = *circuit;
        proof {
            lemma_blocks_step(i as nat, finish as nat, k as nat);
            lemma_blocks_end_ge(blocks_end(init, finish as nat, k as nat), finish as nat, k as nat);
            assert(i + k <= e);
            lemma_block_fits(&**cfg, t as nat, k as nat, start as nat, finish as nat, maxd, i as nat, k as nat);
            assert(done + 1 <= ops) by {
                lemma_blocks_count_ge(i as nat, finish as nat, k as nat);
            }
            assert(t * done + t <= budget) by (nonlinear_arith)
                requires
                    done + 1 <= ops,
                    budget == t as nat * ops,
            ;
            lemma_room_left(old(circuit), &prev, used as nat, budget);
            lemma_room_step(&prev, &prev, 0, (budget - used) as nat);
        }
        let ghost sprev = state@;
        let ghost st0 = states;
        state = circuit.apply(round, PolyKind::PoseidonRounds { cfg: Rc::clone(cfg), t, i, k, pad: false }, state);
        proof {
            lemma_grown_trans(old(circuit), &prev, circuit, used as nat, t as nat);
            assert(done < nb) by {
                lemma_blocks_step(i as nat, finish as nat, k as nat);
            }
            states = states.push(state@);
            assert forall|j: int| 0 <= j < done + 1 implies #[trigger] chain_step(circuit.cs.all_constraints(), *cfg, t as nat, start as nat, k as nat, nb, remg, states, j) by {
                if j < done {
                    assert(states[j] == st0[j] && states[j + 1] == st0[j + 1]);
                    assert(chain_step(prev.cs.all_constraints(), *cfg, t as nat, start as nat, k as nat, nb, remg, st0, j));
                    assert(chain_step(prev.cs.all_constraints(), *cfg, t as nat, start as nat, k as nat, nb, remg, states, j));
                    lemma_chain_step_kept(&prev, circuit, *cfg, t as nat, start as nat, k as nat, nb, remg, states, j);
                } else {
                    assert(states[j] == sprev && states[j + 1] == state@);
                    assert(!(start == 0 && j == 0));
                }
            }
            assert(t * done + t == t * (done + 1)) by (nonlinear_arith);
            assert(budget <= usize::MAX);
            assert(done + 1 <= t * done + t) by (nonlinear_arith)
                requires
                    t >= 1,
            ;
            assert(circuit.fresh(&prev, state@, round as nat, Visibility::Private));
            assert forall|a: int| 0 <= a < state@.len() implies #[trigger] circuit.has_var(state@[a]) && !old(circuit).has_var(state@[a]) by {
                assert(circuit.has_var(state@[a]));
                assert(!prev.has_var(state@[a]));
            }
        }
        proof {
            assert(start + k * (done + 1) == start + k * done + k) by (nonlinear_arith);
        }
        used = used + t;
        done = done + 1;
        i = i + k;
    }
    proof {
        lemma_blocks_count_zero(i as nat, finish as nat, k as nat);
        assert(done == nb);
    }
    if rem > 0 {
        let ghost prev = *circuit;
        proof {
            assert(i as nat == blocks_end(init, finish as nat, k as nat)) by {
                lemma_blocks_done(i as nat, finish as nat, k as nat);
            }
            assert(rem as nat == ((finish - start) as nat) % (k as nat));
            assert(i + rem == e);
            lemma_block_fits(&**cfg, t as nat, k as nat, start as nat, finish as nat, maxd, i as nat, rem as nat);
            lemma_blocks_count_zero(i as nat, finish as nat, k as nat);
            assert(t * done + t <= budget) by (nonlinear_arith)
                requires
                    done + 1 <= ops,
                    budget == t as nat * ops,
            ;
            lemma_room_left(old(circuit), &prev, used as nat, budget);
            assert(budget <= usize::MAX);
        }
        let ghost sprev = state@;
        let ghost st0 = states;
        state = circuit.apply(round, PolyKind::PoseidonRounds { cfg: Rc::clone(cfg), t, i, k: rem, pad: false }, state);
        proof {
            lemma_grown_trans(old(circuit), &prev, circuit, used as nat, t as nat);
            states = states.push(state@);
            assert forall|j: int| 0 <= j < done + 1 implies #[trigger] chain_step(circuit.cs.all_constraints(), *cfg, t as nat, start as nat, k as nat, nb, remg, states, j) by {
                if j < done {
                    assert(states[j] == st0[j] && states[j + 1] == st0[j + 1]);
                    assert(chain_step(prev.cs.all_constraints(), *cfg, t as nat, start as nat, k as nat, nb, remg, st0, j));
                    assert(chain_step(prev.cs.all_constraints(), *cfg, t as nat, start as nat, k as nat, nb, remg, states, j));
                    lemma_chain_step_kept(&prev, circuit, *cfg, t as nat, start as nat, k as nat, nb, remg, states, j);
                } else {
                    assert(states[j] == sprev && states[j + 1] == state@);
                    assert(!(start == 0 && j == 0));
                }
            }
            assert(t * done + t == t * (done + 1)) by (nonlinear_arith);
            assert(done + 1 <= t * done + t) by (nonlinear_arith)
                requires
                    t >= 1,
            ;
            assert(circuit.fresh(&prev, state@, round as nat, Visibility::Private));
            assert forall|a: int| 0 <= a < state@.len() implies #[trigger] circuit.has_var(state@[a]) && !old(circuit).has_var(state@[a]) by {
                assert(circuit.has_var(state@[a]));
                assert(!prev.has_var(state@[a]));
            }
            assert(circuit.fresh(old(circuit), state@, round as nat, Visibility::Private));
        }
        used = used + t;
        done = done + 1;
    }
    proof {
        lemma_blocks_count_zero(i as nat, finish as nat, k as nat);
        assert(t * done <= budget) by (nonlinear_arith)
            requires
                done <= ops,
                budget == t as nat * ops,
        ;
        lemma_grown_mono(old(circuit), circuit, used as nat, budget);
        assert(done >= 1) by {
            if start != 0 {
                lemma_blocks_count_ge(start as nat, finish as nat, k as nat);
            }
        }
        assert(circuit.fresh(old(circuit), state@, round as nat, Visibility::Private));
        assert(full_rounds_chain(
            circuit.cs.all_constraints(),
            *cfg,
            width(inp0.len(), start),
            start as nat,
            finish as nat,
            k as nat,
            inp0,
            state@,
            states,
        ));
    }
    state
}

proof fn lemma_blocks_count_ge(i: nat, finish: nat, k: nat)
    requires
        k > 0,
        i < finish,
    ensures
        blocks_count(i, finish, k) >= 1,
{
}

proof fn lemma_blocks_done(i: nat, finish: nat, k: nat)
    requires
        i >= finish,
    ensures
        blocks_end(i, finish, k) == i,
{
}

proof fn lemma_blocks_count_zero(i: nat, finish: nat, k: nat)
    requires
        i >= finish,
    ensures
        blocks_count(i, finish, k) == 0,
{
}

/// The width of the state of the mixed strategy on `len` inputs: in the
/// first part a zero is put first.
pub open spec fn mixed_width(len: nat, is_first_part: bool) -> nat {
    if is_first_part {
        len + 1
    } else {
        len
    }
}

/// The round where a part of the mixed strategy starts.
pub open spec fn mixed_start(cfg: Poseidon, t: nat, is_first_part: bool) -> nat {
    if is_first_part {
        0
    } else {
        (cfg.constants.n_rounds_f / 2 + cfg.constants.n_rounds_p@[t - 2]) as nat
    }
}

/// A part of the mixed strategy fits the constants and the degree bound.
pub open spec fn mixed_fit(cfg: Poseidon, t: nat, is_first_part: bool, max_deg: nat) -> bool {
    let i = mixed_start(cfg, t, is_first_part);
    &&& t >= 2
    &&& t - 2 < cfg.constants.n_rounds_p@.len()
    &&& cfg.constants.n_rounds_f == 8
    &&& cfg_fits(cfg.constants, t, i + 3)
    &&& i + 3 <= usize::MAX
    &&& 2 * t <= usize::MAX
    &&& 25 <= max_deg
}

/// The constants that fit a later round fit an earlier one.
proof fn lemma_cfg_fits_mono(k: &Constants, t: nat, a: nat, b: nat)
    requires
        cfg_fits(*k, t, b),
        a <= b,
    ensures
        cfg_fits(*k, t, a),
{
    assert((a + 1) * t <= (b + 1) * t) by (nonlinear_arith)
        requires
            a <= b,
    ;
}

/// The gates of the mixed strategy from round `i` on the state `x` (with
/// `pad`, the state but its first zero) through `s1` and `s2` to `y`.
pub open spec fn mixed_chain(
    cs: Seq<crate::constraint_system::Constraint<LibGate>>,
    cfg: Rc<Poseidon>,
    t: nat,
    i: nat,
    pad: bool,
    x: Seq<Variable>,
    s1: Seq<Variable>,
    s2: Seq<Variable>,
    y: Seq<Variable>,
) -> bool {
    &&& has_gate(cs, GateKind::Applied { poly: PolyKind::MixedStart { cfg, t: t as usize, i: i as usize, pad } }, x + s1)
    &&& has_gate(cs, GateKind::Applied { poly: PolyKind::MixedMid { cfg, t: t as usize, i: (i + 1) as usize } }, s1 + s2)
    &&& has_gate(cs, GateKind::Applied { poly: PolyKind::MixedEnd { cfg, t: t as usize, i: (i + 3) as usize } }, s2 + y)
}

proof fn lemma_mixed_chain_kept(
    before: &Circuit,
    after: &Circuit,
    cfg: Rc<Poseidon>,
    t: nat,
    i: nat,
    pad: bool,
    x: Seq<Variable>,
    s1: Seq<Variable>,
    s2: Seq<Variable>,
    y: Seq<Variable>,
)
    requires
        after.extends(before),
        mixed_chain(before.cs.all_constraints(), cfg, t, i, pad, x, s1, s2, y),
    ensures
        mixed_chain(after.cs.all_constraints(), cfg, t, i, pad, x, s1, s2, y),
{
    lemma_gate_kept(before, after, GateKind::Applied { poly: PolyKind::MixedStart { cfg, t: t as usize, i: i as usize, pad } }, x + s1);
    lemma_gate_kept(before, after, GateKind::Applied { poly: PolyKind::MixedMid { cfg, t: t as usize, i: (i + 1) as usize } }, s1 + s2);
    lemma_gate_kept(before, after, GateKind::Applied { poly: PolyKind::MixedEnd { cfg, t: t as usize, i: (i + 3) as usize } }, s2 + y);
}

/// Where a part of the mixed strategy starts: round 0 for the first, after
/// the partial rounds for the second.
pub open spec fn mixed_round(cfg: Rc<Poseidon>, t: nat, is_first_part: bool) -> nat {
    if is_first_part {
        0
    } else {
        cfg.constants.n_rounds_f as nat / 2 + partial_rounds(cfg.constants, t)
    }
}

/// Four full rounds of Poseidon in the mixed strategy: the head of a round
/// and the constants of the next (degree 5), two S-boxes around a mix
/// (degree 25), then a mix and a last round (degree 5). The first part
/// starts from round 0 with a zero put first, the second after the partial
/// rounds. Returns the state after them.
#[verifier::spinoff_prover]
#[verifier::rlimit(60)]
pub fn poseidon_mixed_strategy_full_rounds_gadget(
    circuit: &mut Circuit,
    cfg: &Rc<Poseidon>,
    round: usize,
    state: Vec<Variable>,
    is_first_part: bool,
) -> (r: Vec<Variable>)
    requires
        old(circuit).wf(),
        round < old(circuit).rounds(),
        mixed_fit(**cfg, mixed_width(state@.len(), is_first_part), is_first_part, old(circuit).max_deg()),
        forall|a: int| 0 <= a < state@.len() ==> old(circuit).has_var(#[trigger] state@[a]) && state@[a].round <= round,
        old(circuit).room(3 * mixed_width(state@.len(), is_first_part)),
    ensures
        final(circuit).grown(old(circuit), 3 * mixed_width(state@.len(), is_first_part)),
        r@.len() == mixed_width(state@.len(), is_first_part),
        final(circuit).fresh(old(circuit), r@, round as nat, Visibility::Private),
        exists|s1: Seq<Variable>, s2: Seq<Variable>|
            #[trigger] mixed_chain(
                final(circuit).cs.all_constraints(),
                *cfg,
                mixed_width(state@.len(), is_first_part),
                mixed_round(*cfg, mixed_width(state@.len(), is_first_part), is_first_part),
                is_first_part,
                state@,
                s1,
                s2,
                r@,
            ),
{
    let ghost st0 = state@;
    let t = if is_first_part { state.len() + 1 } else { state.len() };
    let n_rounds_f = cfg.constants.n_rounds_f;
    let n_rounds_p = cfg.constants.n_rounds_p[t - 2];
    let i = if is_first_part { 0 } else { n_rounds_f / 2 + n_rounds_p };
    let ghost c0 = *old(circuit);
    proof {
        lemma_cfg_fits_mono(&cfg.constants, t as nat, (i + 1) as nat, (i + 3) as nat);
        lemma_cfg_fits_mono(&cfg.constants, t as nat, (i + 2) as nat, (i + 3) as nat);
        lemma_room_step(&c0, &c0, 0, (3 * t) as nat);
        lemma_room_left(&c0, &c0, 0, (3 * t) as nat);
    }
    let s1 = circuit.apply(round, PolyKind::MixedStart { cfg: Rc::clone(cfg), t, i, pad: is_first_part }, state);
    let ghost c1 = *circuit;
    proof {
        lemma_room_step(&c0, &c1, t as nat, (2 * t) as nat);
        assert(c1.fresh(&c0, s1@, round as nat, Visibility::Private));
        assert forall|a: int| 0 <= a < s1@.len() implies c1.has_var(#[trigger] s1@[a]) && s1@[a].round <= round by {}
    }
    let s2 = circuit.apply(round, PolyKind::MixedMid { cfg: Rc::clone(cfg), t, i: i + 1 }, s1);
    let ghost c2 = *circuit;
    proof {
        lemma_room_step(&c1, &c2, t as nat, t as nat);
        assert(c2.fresh(&c1, s2@, round as nat, Visibility::Private));
        assert forall|a: int| 0 <= a < s2@.len() implies c2.has_var(#[trigger] s2@[a]) && s2@[a].round <= round by {}
    }
    let s3 = circuit.apply(round, PolyKind::MixedEnd { cfg: Rc::clone(cfg), t, i: i + 3 }, s2);
    proof {
        lemma_grown_trans(&c0, &c1, &c2, t as nat, t as nat);
        lemma_grown_trans(&c0, &c2, circuit, (2 * t) as nat, t as nat);
        assert(circuit.fresh(&c2, s3@, round as nat, Visibility::Private));
        lemma_extends_trans(&c0, &c1, &c2);
        assert forall|a: int| 0 <= a < s3@.len() implies #[trigger] circuit.has_var(s3@[a]) && !c0.has_var(s3@[a]) by {
            assert(circuit.has_var(s3@[a]));
            assert(!c2.has_var(s3@[a]));
        }
        lemma_extends_trans(&c1, &c2, circuit);
        lemma_gate_kept(&c1, circuit, GateKind::Applied { poly: PolyKind::MixedStart { cfg: *cfg, t, i, pad: is_first_part } }, st0 + s1@);
        lemma_gate_kept(&c2, circuit, GateKind::Applied { poly: PolyKind::MixedMid { cfg: *cfg, t, i: (i + 1) as usize } }, s1@ + s2@);
        assert(i as nat == mixed_round(*cfg, t as nat, is_first_part));
        assert(t as nat == mixed_width(st0.len(), is_first_part));
        assert(mixed_chain(circuit.cs.all_constraints(), *cfg, t as nat, i as nat, is_first_part, st0, s1@, s2@, s3@));
        assert(circuit.fresh(old(circuit), s3@, round as nat, Visibility::Private));
    }
    s3
}

/// The full-rounds chain stays as the circuit grows.
proof fn lemma_chain_kept(
    before: &Circuit,
    after: &Circuit,
    cfg: Rc<Poseidon>,
    t: nat,
    start: nat,
    finish: nat,
    k: nat,
    inp: Seq<Variable>,
    out: Seq<Variable>,
    states: Seq<Seq<Variable>>,
)
    requires
        after.extends(before),
        full_rounds_chain(before.cs.all_constraints(), cfg, t, start, finish, k, inp, out, states),
    ensures
        full_rounds_chain(after.cs.all_constraints(), cfg, t, start, finish, k, inp, out, states),
{
    let nb = full_blocks(start, finish, k);
    let rem = ((finish - start) as nat) % k;
    let steps = nb + if rem > 0 { 1nat } else { 0nat };
    assert forall|j: int| 0 <= j < steps implies #[trigger] chain_step(after.cs.all_constraints(), cfg, t, start, k, nb, rem, states, j) by {
        lemma_chain_step_kept(before, after, cfg, t, start, k, nb, rem, states, j);
    }
}

/// A gate of the partial rounds of width `t` from `x` to `y`, with the
/// advice `adv` of the fifth powers in place of both the inputs and the
/// outputs of the S-boxes.
pub open spec fn partial_gate(
    cs: Seq<crate::constraint_system::Constraint<LibGate>>,
    cfg: Rc<Poseidon>,
    t: nat,
    adv: Seq<Variable>,
    x: Seq<Variable>,
    y: Seq<Variable>,
) -> bool {
    has_gate(cs, GateKind::PoseidonPartial { cfg, t: t as usize }, adv + adv + x + y)
}

/// The gates of a hash of `inp` into `r` with `k` full rounds per
/// polynomial: the first half of the full rounds from `inp` to `s1`, the
/// partial rounds from `s1` to `s2`, the second half of the full rounds from
/// `s2` to `s3`, and `r` the first element of `s3`.
pub open spec fn internal_parts(
    cs: Seq<crate::constraint_system::Constraint<LibGate>>,
    cfg: Rc<Poseidon>,
    k: nat,
    inp: Seq<Variable>,
    r: Variable,
    s1: Seq<Variable>,
    s2: Seq<Variable>,
    s3: Seq<Variable>,
    st1: Seq<Seq<Variable>>,
    st2: Seq<Seq<Variable>>,
    adv: Seq<Variable>,
) -> bool {
    let t = inp.len() + 1;
    let nf = cfg.constants.n_rounds_f as nat;
    let np = partial_rounds(cfg.constants, t);
    &&& full_rounds_chain(cs, cfg, t, 0, nf / 2, k, inp, s1, st1)
    &&& partial_gate(cs, cfg, t, adv, s1, s2)
    &&& adv.len() == np
    &&& s2.len() == t
    &&& full_rounds_chain(cs, cfg, t, nf / 2 + np, nf + np, k, s2, s3, st2)
    &&& s3.len() > 0
    &&& r == s3[0]
}

/// The gates of a hash of `inp` into `r` in the mixed strategy: the first
/// part from `inp` to `s1`, the partial rounds from `s1` to `s2`, the second
/// part from `s2` to `s3`, and `r` the first element of `s3`.
pub open spec fn mixstrat_parts(
    cs: Seq<crate::constraint_system::Constraint<LibGate>>,
    cfg: Rc<Poseidon>,
    inp: Seq<Variable>,
    r: Variable,
    s1: Seq<Variable>,
    s2: Seq<Variable>,
    s3: Seq<Variable>,
    m: Seq<Seq<Variable>>,
    adv: Seq<Variable>,
) -> bool {
    let t = inp.len() + 1;
    &&& m.len() == 4
    &&& mixed_chain(cs, cfg, t, mixed_round(cfg, t, true), true, inp, m[0], m[1], s1)
    &&& partial_gate(cs, cfg, t, adv, s1, s2)
    &&& adv.len() == partial_rounds(cfg.constants, t)
    &&& s2.len() == t
    &&& mixed_chain(cs, cfg, t, mixed_round(cfg, t, false), false, s2, m[2], m[3], s3)
    &&& s3.len() > 0
    &&& r == s3[0]
}

/// The full and partial rounds of a hash of `len` inputs, `k` full rounds
/// per polynomial, fit the constants and the degree bound.
pub open spec fn internal_fit(cfg: Poseidon, k: nat, len: nat, max_deg: nat) -> bool {
    let t = len + 1;
    let nf = cfg.constants.n_rounds_f as nat;
    &&& len > 0
    &&& len <= cfg.constants.n_rounds_p@.len()
    &&& nf + partial_rounds(cfg.constants, t) <= usize::MAX
    &&& k < nf / 2
    &&& full_rounds_fit(cfg, t, k, 0, nf / 2, max_deg)
    &&& kind_wf(GateKind::PoseidonPartial { cfg: Rc::new(cfg), t: t as usize })
    &&& full_rounds_fit(cfg, t, k, nf / 2 + partial_rounds(cfg.constants, t), nf + partial_rounds(cfg.constants, t), max_deg)
}

/// What a hash of `len` inputs adds to the circuit at most.
pub open spec fn internal_budget(cfg: Poseidon, k: nat, len: nat) -> nat {
    let t = len + 1;
    let nf = cfg.constants.n_rounds_f as nat;
    let np = partial_rounds(cfg.constants, t);
    t * full_rounds_ops(0, nf / 2, k) + 2 * (np + t) + t * full_rounds_ops(nf / 2 + np, nf + np, k)
}

/// The hash of the inputs: the state of width `len + 1` with a zero first
/// through the full rounds, `k` per polynomial, the partial rounds with
/// advice, and the full rounds again. Returns the first element of the
/// final state.
pub fn poseidon_gadget_internal(circuit: &mut Circuit, cfg: &Rc<Poseidon>, k: usize, round: usize, inp: Vec<Variable>) -> (r: Variable)
    requires
        old(circuit).wf(),
        round < old(circuit).rounds(),
        internal_fit(**cfg, k as nat, inp@.len(), old(circuit).max_deg()),
        forall|a: int| 0 <= a < inp@.len() ==> old(circuit).has_var(#[trigger] inp@[a]) && inp@[a].round <= round,
        old(circuit).room(internal_budget(**cfg, k as nat, inp@.len())),
    ensures
        final(circuit).grown(old(circuit), internal_budget(**cfg, k as nat, inp@.len())),
        final(circuit).has_var(r),
        r.round == round,
        !old(circuit).has_var(r),
        exists|s1: Seq<Variable>, s2: Seq<Variable>, s3: Seq<Variable>, st1: Seq<Seq<Variable>>, st2: Seq<Seq<Variable>>, adv: Seq<Variable>|
            #[trigger] internal_parts(final(circuit).cs.all_constraints(), *cfg, k as nat, inp@, r, s1, s2, s3, st1, st2, adv),
{
    let ghost inp0 = inp@;
    let t = inp.len() + 1;
    let n_rounds_f = cfg.constants.n_rounds_f;
    let n_rounds_p = cfg.constants.n_rounds_p[t - 2];
    let ghost b1 = t as nat * full_rounds_ops(0, (n_rounds_f / 2) as nat, k as nat);
    let ghost b2 = 2 * (n_rounds_p + t) as nat;
    let ghost b3 = t as nat * full_rounds_ops((n_rounds_f / 2 + n_rounds_p) as nat, (n_rounds_f + n_rounds_p) as nat, k as nat);
    let ghost c0 = *old(circuit);
    proof {
        assert(Rc::new(**cfg) == *cfg);
        lemma_room_step(&c0, &c0, 0, b1 + b2 + b3);
    }
    let s1 = poseidon_full_rounds_gadget(circuit, cfg, k, round, inp, 0, n_rounds_f / 2);
    let ghost c1 = *circuit;
    proof {
        lemma_room_step(&c0, &c1, b1, b2 + b3);
        assert forall|a: int| 0 <= a < s1@.len() implies c1.has_var(#[trigger] s1@[a]) && s1@[a].round <= round by {}
    }
    let s2 = poseidon_partial_rounds_gadget(circuit, cfg, s1, round);
    let ghost c2 = *circuit;
    proof {
        lemma_room_step(&c1, &c2, b2, b3);
        assert(c2.fresh(&c1, s2@, round as nat, Visibility::Private));
        assert forall|a: int| 0 <= a < s2@.len() implies c2.has_var(#[trigger] s2@[a]) && s2@[a].round <= round by {}
        assert(n_rounds_f / 2 + n_rounds_p != 0) by {
            assert(k < n_rounds_f / 2);
        }
    }
    let s3 = poseidon_full_rounds_gadget(circuit, cfg, k, round, s2, n_rounds_f / 2 + n_rounds_p, n_rounds_f + n_rounds_p);
    proof {
        lemma_grown_trans(&c0, &c1, &c2, b1, b2);
        lemma_grown_trans(&c0, &c2, circuit, b1 + b2, b3);
        lemma_extends_trans(&c0, &c1, &c2);
        assert(circuit.fresh(&c2, s3@, round as nat, Visibility::Private));
        assert(circuit.has_var(s3@[0]));
        assert(!c2.has_var(s3@[0]));
        let t0 = t as nat;
        let nfh = (n_rounds_f / 2) as nat;
        let np0 = n_rounds_p as nat;
        let st1 = choose|st: Seq<Seq<Variable>>| #[trigger] full_rounds_chain(c1.cs.all_constraints(), *cfg, t0, 0, nfh, k as nat, inp0, s1@, st);
        let st2 = choose|st: Seq<Seq<Variable>>| #[trigger] full_rounds_chain(circuit.cs.all_constraints(), *cfg, t0, nfh + np0, (n_rounds_f + n_rounds_p) as nat, k as nat, s2@, s3@, st);
        let tmp = op_outputs(c2.ops_view()[round as int].last());
        let adv = tmp.take(np0 as int);
        lemma_extends_trans(&c1, &c2, circuit);
        lemma_chain_kept(&c1, circuit, *cfg, t0, 0, nfh, k as nat, inp0, s1@, st1);
        lemma_gate_kept(&c2, circuit, GateKind::PoseidonPartial { cfg: *cfg, t: t }, adv + adv + s1@ + s2@);
        assert(internal_parts(circuit.cs.all_constraints(), *cfg, k as nat, inp0, s3@[0], s1@, s2@, s3@, st1, st2, adv));
    }
    s3[0]
}

/// Advice that equals the fifth power of the first element of each partial
/// round, taken on the rounds with advice so far, makes those rounds the true
/// partial rounds.
proof fn lemma_checked_advice(s0: Seq<nat>, c: Seq<nat>, m: Seq<Seq<nat>>, adv: Seq<nat>, nf: nat, np: nat, t: nat, j: nat)
    requires
        s0.len() > 0,
        j <= np,
        forall|k: int| 0 <= k < np ==> #[trigger] adv[k] == pow5(ark_spec(
            partial_with_advice(s0, c, m, adv, nf, t, k as nat),
            c,
            (t * (k + nf / 2)) as int,
        )[0]),
    ensures
        partial_with_advice(s0, c, m, adv, nf, t, j) == rounds_spec(s0, c, m, nf, np, t, nf / 2, j),
    decreases j,
{
    if j > 0 {
        let k = (j - 1) as nat;
        lemma_checked_advice(s0, c, m, adv, nf, np, t, k);
        lemma_rounds_len(s0, c, m, nf, np, t, nf / 2, k);
        let i = (nf / 2 + k) as nat;
        assert(!is_full_round(nf, np, i));
        assert((i * t) as int == (t * (k + nf / 2)) as int) by (nonlinear_arith)
            requires
                i == nf / 2 + k,
        ;
        assert(adv[k as int] == pow5(ark_spec(
            partial_with_advice(s0, c, m, adv, nf, t, k),
            c,
            (t * (k + nf / 2)) as int,
        )[0]));
        assert((nf / 2 + j - 1) as nat == i);
    }
}

/// The constants added to a canonical-or-not state give a canonical one,
/// and the S-box keeps a canonical state canonical.
proof fn lemma_ark_sbox_lt(state: Seq<nat>, c: Seq<nat>, it: int, nf: nat, np: nat, i: nat)
    requires
        state.len() > 0,
    ensures
        forall|j: int| 0 <= j < state.len() ==> #[trigger] ark_spec(state, c, it)[j] < crate::field::field_modulus(),
        sbox_spec(nf, np, ark_spec(state, c, it), i).len() == state.len(),
        forall|j: int| 0 <= j < state.len() ==> #[trigger] sbox_spec(nf, np, ark_spec(state, c, it), i)[j] < crate::field::field_modulus(),
{
    let a = ark_spec(state, c, it);
    assert forall|j: int| 0 <= j < state.len() implies #[trigger] a[j] < crate::field::field_modulus() by {
        crate::field::lemma_fm_bound((state[j] + c[it + j]) as int);
    }
    let b = sbox_spec(nf, np, a, i);
    assert forall|j: int| 0 <= j < state.len() implies #[trigger] b[j] < crate::field::field_modulus() by {
        let q = a[j];
        crate::field::lemma_fmul_lt(crate::field::fmul(crate::field::fmul(q, q), crate::field::fmul(q, q)), q);
        let q0 = a[0];
        crate::field::lemma_fmul_lt(crate::field::fmul(crate::field::fmul(q0, q0), crate::field::fmul(q0, q0)), q0);
    }
}

/// The three pieces of the mixed strategy from round `i` compose to the
/// rounds `i..i + 4`, and each gives a canonical state.
proof fn lemma_mixed_parts(k: Constants, p: Seq<nat>, i: nat)
    requires
        p.len() >= 2,
    ensures
        ({
            let t = p.len();
            let a = mixed_start_spec(k, p, i);
            let b = mixed_mid_spec(k, a, i + 1);
            let e = mixed_end_spec(k, b, i + 3);
            &&& a.len() == t
            &&& b.len() == t
            &&& e.len() == t
            &&& forall|j: int| 0 <= j < t ==> #[trigger] a[j] < crate::field::field_modulus()
            &&& forall|j: int| 0 <= j < t ==> #[trigger] b[j] < crate::field::field_modulus()
            &&& forall|j: int| 0 <= j < t ==> #[trigger] e[j] < crate::field::field_modulus()
            &&& e == rounds_spec(
                p,
                consts_c(k, t),
                consts_m(k, t),
                k.n_rounds_f as nat,
                k.n_rounds_p@[t - 2] as nat,
                t,
                i,
                4,
            )
        }),
{
    let t = p.len();
    let c = consts_c(k, t);
    let m = consts_m(k, t);
    let nf = k.n_rounds_f as nat;
    let np = k.n_rounds_p@[t - 2] as nat;
    assert((t * i) as int == (i * t) as int) by (nonlinear_arith);
    assert((t * (i + 1)) as int == ((i + 1) * t) as int) by (nonlinear_arith);
    assert((t * (i + 2)) as int == ((i + 2) * t) as int) by (nonlinear_arith);
    assert((t * (i + 3)) as int == ((i + 3) * t) as int) by (nonlinear_arith);
    let r1 = rounds_spec(p, c, m, nf, np, t, i, 1);
    let r2 = rounds_spec(p, c, m, nf, np, t, i, 2);
    let r3 = rounds_spec(p, c, m, nf, np, t, i, 3);
    let r4 = rounds_spec(p, c, m, nf, np, t, i, 4);
    assert(rounds_spec(p, c, m, nf, np, t, i, 0) == p);
    assert(r1 == crate::folding::poseidon::round_spec(p, c, m, nf, np, t, i));
    lemma_rounds_len(p, c, m, nf, np, t, i, 1);
    lemma_rounds_len(p, c, m, nf, np, t, i, 2);
    lemma_rounds_len(p, c, m, nf, np, t, i, 3);
    lemma_rounds_len(p, c, m, nf, np, t, i, 4);
    lemma_rounds_lt(p, c, m, nf, np, t, i, 4);
    let a = mixed_start_spec(k, p, i);
    assert(a == ark_spec(r1, c, ((i + 1) * t) as int));
    lemma_ark_sbox_lt(r1, c, ((i + 1) * t) as int, nf, np, i + 1);
    let b = mixed_mid_spec(k, a, i + 1);
    assert(a.len() == t);
    assert(r2 == mix_spec(sbox_spec(nf, np, a, i + 1), m));
    assert(b == sbox_spec(nf, np, ark_spec(r2, c, ((i + 2) * t) as int), i + 2));
    lemma_ark_sbox_lt(r2, c, ((i + 2) * t) as int, nf, np, i + 2);
    assert(b.len() == t);
    assert(r3 == mix_spec(b, m));
    let e = mixed_end_spec(k, b, i + 3);
    assert(e == r4);
}

/// Soundness of a part of the mixed strategy: where every constraint of the
/// circuit holds on a witness, the end `y` of its gates from round `i` on
/// `x` holds the state after the rounds `i..i + 4` of `x` (with a zero put
/// first under `pad`).
pub proof fn law_mixed_chain_sound(
    c: Circuit,
    w: CSWtns,
    cfg: Rc<Poseidon>,
    t: nat,
    i: nat,
    pad: bool,
    x: Seq<Variable>,
    s1: Seq<Variable>,
    s2: Seq<Variable>,
    y: Seq<Variable>,
)
    requires
        c.wf(),
        forall|j: int| 0 <= j < c.cs.all_constraints().len() ==> #[trigger] constraint_holds(c.cs.all_constraints()[j], w),
        mixed_chain(c.cs.all_constraints(), cfg, t, i, pad, x, s1, s2, y),
        2 <= t <= usize::MAX,
        i + 3 <= usize::MAX,
        x.len() == if pad { (t - 1) as nat } else { t },
    ensures
        y.len() == t,
        vals(assigned_vals(w, y)) == cfg_rounds(cfg, t, padded(assigned_vals(w, x), pad), i, 4),
{
    let p = *cfg;
    let kc = p.constants;
    let p0 = padded(assigned_vals(w, x), pad);
    assert(p0.len() == t);
    lemma_mixed_parts(kc, p0, i);
    let a = mixed_start_spec(kc, p0, i);
    let b = mixed_mid_spec(kc, a, i + 1);
    let e = mixed_end_spec(kc, b, i + 3);
    law_applied_gate_sound(c, w, PolyKind::MixedStart { cfg, t: t as usize, i: i as usize, pad }, x, s1);
    assert(vals(assigned_vals(w, s1)) =~= a) by {
        assert forall|j: int| 0 <= j < t implies #[trigger] vals(assigned_vals(w, s1))[j] == a[j] by {
            crate::field::lemma_fm_canonical(a[j] as int);
        }
    }
    law_applied_gate_sound(c, w, PolyKind::MixedMid { cfg, t: t as usize, i: (i + 1) as usize }, s1, s2);
    assert(vals(assigned_vals(w, s2)) =~= b) by {
        assert forall|j: int| 0 <= j < t implies #[trigger] vals(assigned_vals(w, s2))[j] == b[j] by {
            crate::field::lemma_fm_canonical(b[j] as int);
        }
    }
    law_applied_gate_sound(c, w, PolyKind::MixedEnd { cfg, t: t as usize, i: (i + 3) as usize }, s2, y);
    assert(vals(assigned_vals(w, y)) =~= e) by {
        assert forall|j: int| 0 <= j < t implies #[trigger] vals(assigned_vals(w, y))[j] == e[j] by {
            crate::field::lemma_fm_canonical(e[j] as int);
        }
    }
}

/// Soundness of the partial rounds: where every constraint of the circuit
/// holds on a witness and its gate of the partial rounds of width `t` ties
/// the state `x` to `y` through the advice `adv`, `y` holds the state after
/// the partial rounds of `x`.
pub proof fn law_partial_rounds_sound(
    c: Circuit,
    w: CSWtns,
    cfg: Rc<Poseidon>,
    t: nat,
    adv: Seq<Variable>,
    x: Seq<Variable>,
    y: Seq<Variable>,
)
    requires
        c.wf(),
        forall|i: int| 0 <= i < c.cs.all_constraints().len() ==> #[trigger] constraint_holds(c.cs.all_constraints()[i], w),
        partial_gate(c.cs.all_constraints(), cfg, t, adv, x, y),
        2 <= t <= usize::MAX,
        adv.len() == partial_rounds(cfg.constants, t),
        x.len() == t,
    ensures
        y.len() == t,
        vals(assigned_vals(w, y)) == cfg_rounds(
            cfg,
            t,
            vals(assigned_vals(w, x)),
            (cfg.constants.n_rounds_f / 2) as nat,
            partial_rounds(cfg.constants, t),
        ),
{
    let p = *cfg;
    let kc = p.constants;
    let cs = c.cs.all_constraints();
    let g = GateKind::PoseidonPartial { cfg, t: t as usize };
    let ins = adv + adv + x + y;
    let i = choose|i: int| 0 <= i < cs.len() && (#[trigger] cs[i]).gate.kind() == g && cs[i].inputs@ == ins;
    assert(constraint_holds(cs[i], w));
    lemma_constraint_arity(&c, i);
    let np = partial_rounds(kc, t);
    let nf = kc.n_rounds_f as nat;
    let cc = consts_c(kc, t);
    let mm = consts_m(kc, t);
    let xs = assigned_vals(w, ins);
    let av = assigned_vals(w, adv);
    let a = vals(av);
    let s0 = vals(assigned_vals(w, x));
    let ys = assigned_vals(w, y);
    assert(y.len() == t);
    assert(vals(xs.subrange(0, np as int)) =~= a);
    assert(xs.subrange(np as int, (2 * np) as int) =~= av);
    assert(vals(xs.subrange((2 * np) as int, (2 * np + t) as int)) =~= s0);
    assert(xs.subrange((2 * np + t) as int, (2 * np + 2 * t) as int) =~= ys);
    let out = partial_out(kc, t, xs);
    assert(cs[i].gate.spec_exec(xs) == out);
    assert forall|k: int| 0 <= k < np implies #[trigger] a[k] == pow5(ark_spec(
        partial_with_advice(s0, cc, mm, a, nf, t, k as nat),
        cc,
        (t * (k + nf / 2)) as int,
    )[0]) by {
        assert(out[k] == 0);
        let q = ark_spec(partial_with_advice(s0, cc, mm, a, nf, t, k as nat), cc, (t * (k + nf / 2)) as int)[0];
        crate::field::lemma_fmul_lt(crate::field::fmul(crate::field::fmul(q, q), crate::field::fmul(q, q)), q);
        av[k].lemma_val_lt();
        crate::field::lemma_fsub_zero(pow5(q), a[k]);
    }
    lemma_checked_advice(s0, cc, mm, a, nf, np, t, np);
    let r = cfg_rounds(cfg, t, s0, nf / 2, np);
    lemma_cfg_rounds(cfg, t, s0, nf / 2, np, 0);
    assert forall|j: int| 0 <= j < t implies #[trigger] vals(ys)[j] == r[j] by {
        assert(out[np + j] == 0);
        ys[j].lemma_val_lt();
        if np == 0 {
            assigned_vals(w, x)[j].lemma_val_lt();
        }
        crate::field::lemma_fsub_zero(r[j], ys[j].val());
    }
    assert(vals(ys) =~= r);
}

/// Soundness of the hash: where every constraint of the circuit holds on a
/// witness, the output of a hash of `inp` with `k` full rounds per
/// polynomial holds the Poseidon hash of the values of `inp`, whenever the
/// blocks of `k` rounds end where the full rounds of each half do.
pub proof fn law_hash_internal_sound(
    c: Circuit,
    w: CSWtns,
    cfg: Rc<Poseidon>,
    k: nat,
    inp: Seq<Variable>,
    r: Variable,
    s1: Seq<Variable>,
    s2: Seq<Variable>,
    s3: Seq<Variable>,
    st1: Seq<Seq<Variable>>,
    st2: Seq<Seq<Variable>>,
    adv: Seq<Variable>,
)
    requires
        c.wf(),
        forall|i: int| 0 <= i < c.cs.all_constraints().len() ==> #[trigger] constraint_holds(c.cs.all_constraints()[i], w),
        internal_fit(*cfg, k, inp.len(), c.max_deg()),
        internal_parts(c.cs.all_constraints(), cfg, k, inp, r, s1, s2, s3, st1, st2, adv),
        full_rounds_end(0, (cfg.constants.n_rounds_f / 2) as nat, k) == cfg.constants.n_rounds_f / 2,
        full_rounds_end(
            (cfg.constants.n_rounds_f / 2 + partial_rounds(cfg.constants, inp.len() + 1)) as nat,
            (cfg.constants.n_rounds_f + partial_rounds(cfg.constants, inp.len() + 1)) as nat,
            k,
        ) == cfg.constants.n_rounds_f + partial_rounds(cfg.constants, inp.len() + 1),
    ensures
        w.slot(r).unwrap().unwrap().val() == hash_spec(cfg.constants, vals(assigned_vals(w, inp))),
{
    let p = *cfg;
    let kc = p.constants;
    let t = inp.len() + 1;
    let nf = kc.n_rounds_f as nat;
    let h = nf / 2;
    let np = partial_rounds(kc, t);
    let p0 = padded(assigned_vals(w, inp), true);
    law_full_rounds_sound(c, w, cfg, t, 0, h, k, inp, s1, st1);
    law_partial_rounds_sound(c, w, cfg, t, adv, s1, s2);
    law_full_rounds_sound(c, w, cfg, t, h + np, nf + np, k, s2, s3, st2);
    lemma_cfg_rounds(cfg, t, p0, 0, h, np);
    lemma_cfg_rounds(cfg, t, p0, 0, h + np, (nf - h) as nat);
    assert(padded(assigned_vals(w, s2), false) == vals(assigned_vals(w, s2)));
    assert(vals(assigned_vals(w, s3)) == cfg_rounds(cfg, t, p0, 0, nf + np));
    assert(p0 == seq![0nat] + vals(assigned_vals(w, inp)));
    assert(vals(assigned_vals(w, s3))[0] == assigned_vals(w, s3)[0].val());
}

/// A hash of `len` inputs in the mixed strategy fits the constants and the
/// degree bound.
pub open spec fn mixstrat_fit(cfg: Poseidon, len: nat, max_deg: nat) -> bool {
    let t = len + 1;
    &&& len > 0
    &&& mixed_fit(cfg, t, true, max_deg)
    &&& kind_wf(GateKind::PoseidonPartial { cfg: Rc::new(cfg), t: t as usize })
    &&& mixed_fit(cfg, t, false, max_deg)
}

/// What a hash in the mixed strategy adds to the circuit at most.
pub open spec fn mixstrat_budget(cfg: Poseidon, len: nat) -> nat {
    let t = len + 1;
    6 * t + 2 * (partial_rounds(cfg.constants, t) + t)
}

/// The hash of the inputs with the mixed strategy for the full rounds.
pub fn poseidon_gadget_mixstrat(circuit: &mut Circuit, cfg: &Rc<Poseidon>, round: usize, inp: Vec<Variable>) -> (r: Variable)
    requires
        old(circuit).wf(),
        round < old(circuit).rounds(),
        mixstrat_fit(**cfg, inp@.len(), old(circuit).max_deg()),
        forall|a: int| 0 <= a < inp@.len() ==> old(circuit).has_var(#[trigger] inp@[a]) && inp@[a].round <= round,
        old(circuit).room(mixstrat_budget(**cfg, inp@.len())),
    ensures
        final(circuit).grown(old(circuit), mixstrat_budget(**cfg, inp@.len())),
        final(circuit).has_var(r),
        r.round == round,
        !old(circuit).has_var(r),
        exists|s1: Seq<Variable>, s2: Seq<Variable>, s3: Seq<Variable>, m: Seq<Seq<Variable>>, adv: Seq<Variable>|
            #[trigger] mixstrat_parts(final(circuit).cs.all_constraints(), *cfg, inp@, r, s1, s2, s3, m, adv),
{
    let ghost inp0 = inp@;
    let t = inp.len() + 1;
    let np = cfg.constants.n_rounds_p[t - 2];
    let ghost b2: nat = 2 * (np as nat + t as nat);
    let ghost c0 = *old(circuit);
    proof {
        assert(Rc::new(**cfg) == *cfg);
        lemma_room_step(&c0, &c0, 0, (6 * t) as nat + b2);
    }
    let s1 = poseidon_mixed_strategy_full_rounds_gadget(circuit, cfg, round, inp, true);
    let ghost c1 = *circuit;
    proof {
        lemma_room_step(&c0, &c1, (3 * t) as nat, (3 * t) as nat + b2);
        assert forall|a: int| 0 <= a < s1@.len() implies c1.has_var(#[trigger] s1@[a]) && s1@[a].round <= round by {}
    }
    let s2 = poseidon_partial_rounds_gadget(circuit, cfg, s1, round);
    let ghost c2 = *circuit;
    proof {
        lemma_room_step(&c1, &c2, b2, (3 * t) as nat);
        assert(c2.fresh(&c1, s2@, round as nat, Visibility::Private));
        assert forall|a: int| 0 <= a < s2@.len() implies c2.has_var(#[trigger] s2@[a]) && s2@[a].round <= round by {}
    }
    let s3 = poseidon_mixed_strategy_full_rounds_gadget(circuit, cfg, round, s2, false);
    proof {
        lemma_grown_trans(&c0, &c1, &c2, (3 * t) as nat, b2);
        lemma_grown_trans(&c0, &c2, circuit, (3 * t) as nat + b2, (3 * t) as nat);
        lemma_extends_trans(&c0, &c1, &c2);
        assert(circuit.fresh(&c2, s3@, round as nat, Visibility::Private));
        assert(circuit.has_var(s3@[0]));
        assert(!c2.has_var(s3@[0]));
        let t0 = t as nat;
        let (a0, a1) = choose|a0: Seq<Variable>, a1: Seq<Variable>| #[trigger] mixed_chain(c1.cs.all_constraints(), *cfg, t0, mixed_round(*cfg, t0, true), true, inp0, a0, a1, s1@);
        let (b0, b1) = choose|b0: Seq<Variable>, b1: Seq<Variable>| #[trigger] mixed_chain(circuit.cs.all_constraints(), *cfg, t0, mixed_round(*cfg, t0, false), false, s2@, b0, b1, s3@);
        let tmp = op_outputs(c2.ops_view()[round as int].last());
        let adv = tmp.take(np as int);
        lemma_extends_trans(&c1, &c2, circuit);
        lemma_mixed_chain_kept(&c1, circuit, *cfg, t0, mixed_round(*cfg, t0, true), true, inp0, a0, a1, s1@);
        lemma_gate_kept(&c2, circuit, GateKind::PoseidonPartial { cfg: *cfg, t: t }, adv + adv + s1@ + s2@);
        let m = seq![a0, a1, b0, b1];
        assert(mixstrat_parts(circuit.cs.all_constraints(), *cfg, inp0, s3@[0], s1@, s2@, s3@, m, adv));
    }
    s3[0]
}


/// Soundness of the hash in the mixed strategy: where every constraint of
/// the circuit holds on a witness, the output of a hash of `inp` holds the
/// Poseidon hash of the values of `inp`.
pub proof fn law_hash_mixstrat_sound(
    c: Circuit,
    w: CSWtns,
    cfg: Rc<Poseidon>,
    inp: Seq<Variable>,
    r: Variable,
    s1: Seq<Variable>,
    s2: Seq<Variable>,
    s3: Seq<Variable>,
    m: Seq<Seq<Variable>>,
    adv: Seq<Variable>,
)
    requires
        c.wf(),
        forall|i: int| 0 <= i < c.cs.all_constraints().len() ==> #[trigger] constraint_holds(c.cs.all_constraints()[i], w),
        mixstrat_fit(*cfg, inp.len(), c.max_deg()),
        mixstrat_parts(c.cs.all_constraints(), cfg, inp, r, s1, s2, s3, m, adv),
    ensures
        w.slot(r).unwrap().unwrap().val() == hash_spec(cfg.constants, vals(assigned_vals(w, inp))),
{
    let p = *cfg;
    let kc = p.constants;
    let t = inp.len() + 1;
    let np = partial_rounds(kc, t);
    let p0 = padded(assigned_vals(w, inp), true);
    law_mixed_chain_sound(c, w, cfg, t, 0, true, inp, m[0], m[1], s1);
    law_partial_rounds_sound(c, w, cfg, t, adv, s1, s2);
    law_mixed_chain_sound(c, w, cfg, t, 4 + np, false, s2, m[2], m[3], s3);
    lemma_cfg_rounds(cfg, t, p0, 0, 4, np);
    lemma_cfg_rounds(cfg, t, p0, 0, 4 + np, 4);
    assert(padded(assigned_vals(w, s2), false) == vals(assigned_vals(w, s2)));
    assert(vals(assigned_vals(w, s3)) == cfg_rounds(cfg, t, p0, 0, 8 + np));
    assert(p0 == seq![0nat] + vals(assigned_vals(w, inp)));
    assert(vals(assigned_vals(w, s3))[0] == assigned_vals(w, s3)[0].val());
}

/// The size of the next chunk of a chunked hash: `rate` elements, or all
/// that are left.
pub open spec fn chunk_len(len: nat, rate: nat) -> nat {
    if len < rate {
        len
    } else {
        rate
    }
}

/// Every chunk of a chunked hash of `len` elements fits the constants and
/// the degree bound. Each step hashes the first `chunk_len` elements into
/// one.
pub open spec fn chunked_fit(cfg: &Rc<Poseidon>, k: nat, len: nat, rate: nat, max_deg: nat) -> bool
    decreases len,
{
    if len <= 1 || rate < 2 {
        true
    } else {
        let c = chunk_len(len, rate);
        internal_fit(**cfg, k, c, max_deg) && chunked_fit(cfg, k, (len - c + 1) as nat, rate, max_deg)
    }
}

/// What a chunked hash of `len` elements adds to the circuit at most.
pub open spec fn chunked_budget(cfg: &Rc<Poseidon>, k: nat, len: nat, rate: nat) -> nat
    decreases len,
{
    if len <= 1 || rate < 2 {
        0
    } else {
        let c = chunk_len(len, rate);
        internal_budget(**cfg, k, c) + chunked_budget(cfg, k, (len - c + 1) as nat, rate)
    }
}

/// The number of full rounds of the constants.
pub open spec fn rc_full_rounds(cfg: Rc<Poseidon>) -> nat {
    cfg.constants.n_rounds_f as nat
}

/// The number of partial rounds of width `t` of the constants.
pub open spec fn rc_partial_rounds(cfg: Rc<Poseidon>, t: nat) -> nat {
    partial_rounds(cfg.constants, t)
}

/// The constraints hold a hash of `inp` into `r`, `k` full rounds per
/// polynomial.
pub open spec fn hashes_into(
    cs: Seq<crate::constraint_system::Constraint<LibGate>>,
    cfg: Rc<Poseidon>,
    k: nat,
    inp: Seq<Variable>,
    r: Variable,
) -> bool {
    exists|s1: Seq<Variable>, s2: Seq<Variable>, s3: Seq<Variable>, st1: Seq<Seq<Variable>>, st2: Seq<Seq<Variable>>, adv: Seq<Variable>|
        #[trigger] internal_parts(cs, cfg, k, inp, r, s1, s2, s3, st1, st2, adv)
}

proof fn lemma_hashes_kept(before: &Circuit, after: &Circuit, cfg: Rc<Poseidon>, k: nat, inp: Seq<Variable>, r: Variable)
    requires
        after.extends(before),
        hashes_into(before.cs.all_constraints(), cfg, k, inp, r),
    ensures
        hashes_into(after.cs.all_constraints(), cfg, k, inp, r),
{
    let (s1, s2, s3, st1, st2, adv) = choose|s1: Seq<Variable>, s2: Seq<Variable>, s3: Seq<Variable>, st1: Seq<Seq<Variable>>, st2: Seq<Seq<Variable>>, adv: Seq<Variable>|
        #[trigger] internal_parts(before.cs.all_constraints(), cfg, k, inp, r, s1, s2, s3, st1, st2, adv);
    let t = inp.len() + 1;
    let nf = rc_full_rounds(cfg);
    let np = rc_partial_rounds(cfg, t);
    lemma_chain_kept(before, after, cfg, t, 0, nf / 2, k, inp, s1, st1);
    lemma_gate_kept(before, after, GateKind::PoseidonPartial { cfg, t: t as usize }, adv + adv + s1 + s2);
    lemma_chain_kept(before, after, cfg, t, nf / 2 + np, nf + np, k, s2, s3, st2);
    assert(internal_parts(after.cs.all_constraints(), cfg, k, inp, r, s1, s2, s3, st1, st2, adv));
}

/// Step `j` of a chunked hash: the first `chunk_len` entries of list `j`
/// are hashed into the first entry of list `j + 1`, followed by the rest.
pub open spec fn chunk_step(
    cs: Seq<crate::constraint_system::Constraint<LibGate>>,
    cfg: Rc<Poseidon>,
    rate: nat,
    lists: Seq<Seq<Variable>>,
    j: int,
) -> bool {
    let l = lists[j];
    let c = chunk_len(l.len(), rate);
    &&& l.len() > 1
    &&& lists[j + 1].len() == l.len() - c + 1
    &&& lists[j + 1].skip(1) == l.skip(c as int)
    &&& hashes_into(cs, cfg, 1, l.take(c as int), lists[j + 1][0])
}

/// The lists of a chunked hash of `inp` into `r`: from `inp`, each step
/// hashes the first `rate` entries (or all that are left) into one that
/// takes their place in front, until one is left, which is `r`.
pub open spec fn chunked_chain(
    cs: Seq<crate::constraint_system::Constraint<LibGate>>,
    cfg: Rc<Poseidon>,
    rate: nat,
    inp: Seq<Variable>,
    r: Variable,
    lists: Seq<Seq<Variable>>,
) -> bool {
    &&& lists.len() >= 1
    &&& lists[0] == inp
    &&& lists.last().len() == 1
    &&& r == lists.last()[0]
    &&& forall|j: int| 0 <= j < lists.len() - 1 ==> #[trigger] chunk_step(cs, cfg, rate, lists, j)
}

/// The chunked hash of values: the first `rate` of them (or all that are
/// left) are hashed into one, which takes their place in front, until one
/// is left.
pub open spec fn chunked_hash_spec(k: Constants, rate: nat, v: Seq<nat>) -> nat
    decreases v.len(),
{
    if v.len() == 0 {
        0
    } else if v.len() == 1 || rate < 2 {
        v[0]
    } else {
        let c = chunk_len(v.len(), rate);
        chunked_hash_spec(k, rate, seq![hash_spec(k, v.take(c as int))] + v.skip(c as int))
    }
}

/// Every list of a chunked hash whose constraints hold has the chunked hash
/// of the inputs.
proof fn lemma_chunked_values(
    c: Circuit,
    w: CSWtns,
    cfg: Rc<Poseidon>,
    rate: nat,
    inp: Seq<Variable>,
    r: Variable,
    lists: Seq<Seq<Variable>>,
    j: nat,
)
    requires
        c.wf(),
        forall|i: int| 0 <= i < c.cs.all_constraints().len() ==> #[trigger] constraint_holds(c.cs.all_constraints()[i], w),
        inp.len() > 0,
        inp.len() == 1 || rate >= 2,
        chunked_fit(&cfg, 1, inp.len(), rate, c.max_deg()),
        chunked_chain(c.cs.all_constraints(), cfg, rate, inp, r, lists),
        j < lists.len(),
    ensures
        lists[j as int].len() > 0,
        chunked_fit(&cfg, 1, lists[j as int].len(), rate, c.max_deg()),
        chunked_hash_spec(cfg.constants, rate, vals(assigned_vals(w, lists[j as int]))) == chunked_hash_spec(
            cfg.constants,
            rate,
            vals(assigned_vals(w, inp)),
        ),
    decreases j,
{
    if j > 0 {
        let i = (j - 1) as nat;
        lemma_chunked_values(c, w, cfg, rate, inp, r, lists, i);
        assert(chunk_step(c.cs.all_constraints(), cfg, rate, lists, i as int));
        let p = *cfg;
        let kc = p.constants;
        let l = lists[i as int];
        let n = lists[j as int];
        let cl = chunk_len(l.len(), rate);
        let ch = l.take(cl as int);
        assert(rate >= 2) by {
            if rate < 2 {
                assert(chunk_step(c.cs.all_constraints(), cfg, rate, lists, 0));
            }
        }
        assert(internal_fit(*cfg, 1, cl, c.max_deg()));
        let h = n[0];
        assert(hashes_into(c.cs.all_constraints(), cfg, 1, ch, h));
        let (s1, s2, s3, st1, st2, adv) = choose|s1: Seq<Variable>, s2: Seq<Variable>, s3: Seq<Variable>, st1: Seq<Seq<Variable>>, st2: Seq<Seq<Variable>>, adv: Seq<Variable>|
            #[trigger] internal_parts(c.cs.all_constraints(), cfg, 1, ch, h, s1, s2, s3, st1, st2, adv);
        let nf = kc.n_rounds_f as nat;
        let np = partial_rounds(kc, cl + 1);
        lemma_blocks_count_one(1, nf / 2);
        lemma_full_blocks_end(0, nf / 2, 1);
        lemma_blocks_count_one(nf / 2 + np, nf + np);
        lemma_full_blocks_end(nf / 2 + np, nf + np, 1);
        law_hash_internal_sound(c, w, cfg, 1, ch, h, s1, s2, s3, st1, st2, adv);
        let lv = vals(assigned_vals(w, l));
        let nv = vals(assigned_vals(w, n));
        assert(vals(assigned_vals(w, ch)) =~= lv.take(cl as int));
        assert(nv =~= seq![hash_spec(kc, lv.take(cl as int))] + lv.skip(cl as int)) by {
            assert forall|a: int| 1 <= a < nv.len() implies nv[a] == lv.skip(cl as int)[a - 1] by {
                assert(n[a] == n.skip(1)[a - 1]);
                assert(n.skip(1)[a - 1] == l.skip(cl as int)[a - 1]);
            }
        }
    }
}

/// Soundness of the chunked hash: where every constraint of the circuit
/// holds on a witness, the output of a chunked hash of `inp` holds the
/// chunked Poseidon hash of the values of `inp`.
pub proof fn law_hash_chunked_sound(
    c: Circuit,
    w: CSWtns,
    cfg: Rc<Poseidon>,
    rate: nat,
    inp: Seq<Variable>,
    r: Variable,
    lists: Seq<Seq<Variable>>,
)
    requires
        c.wf(),
        forall|i: int| 0 <= i < c.cs.all_constraints().len() ==> #[trigger] constraint_holds(c.cs.all_constraints()[i], w),
        inp.len() > 0,
        inp.len() == 1 || rate >= 2,
        chunked_fit(&cfg, 1, inp.len(), rate, c.max_deg()),
        chunked_chain(c.cs.all_constraints(), cfg, rate, inp, r, lists),
    ensures
        w.slot(r).unwrap().unwrap().val() == chunked_hash_spec(cfg.constants, rate, vals(assigned_vals(w, inp))),
{
    let last = (lists.len() - 1) as nat;
    lemma_chunked_values(c, w, cfg, rate, inp, r, lists, last);
    let lv = vals(assigned_vals(w, lists[last as int]));
    assert(lv.len() == 1);
    assert(chunked_hash_spec(cfg.constants, rate, lv) == lv[0]);
}

/// The hash of any number of inputs: the first `rate` of them are hashed
/// into one, which takes their place in front, until one is left. A single
/// input is its own hash.
pub fn poseidon_gadget(circuit: &mut Circuit, cfg: &Rc<Poseidon>, round: usize, rate: usize, inp: &[Variable]) -> (r: Variable)
    requires
        old(circuit).wf(),
        round < old(circuit).rounds(),
        inp@.len() > 0,
        inp@.len() == 1 || rate >= 2,
        chunked_fit(cfg, 1, inp@.len(), rate as nat, old(circuit).max_deg()),
        forall|a: int| 0 <= a < inp@.len() ==> old(circuit).has_var(#[trigger] inp@[a]) && inp@[a].round <= round,
        old(circuit).room(chunked_budget(cfg, 1, inp@.len(), rate as nat)),
    ensures
        final(circuit).grown(old(circuit), chunked_budget(cfg, 1, inp@.len(), rate as nat)),
        final(circuit).has_var(r),
        inp@.len() == 1 ==> r == inp@[0],
        inp@.len() > 1 ==> r.round == round && !old(circuit).has_var(r),
        exists|lists: Seq<Seq<Variable>>| #[trigger] chunked_chain(final(circuit).cs.all_constraints(), *cfg, rate as nat, inp@, r, lists),
{
    let l = inp.len();
    let ghost c0 = *old(circuit);
    let ghost total = chunked_budget(cfg, 1, l as nat, rate as nat);
    let mut to_hash: Vec<Variable> = Vec::new();
    let mut i: usize = 0;
    while i < l
        invariant
            l == inp@.len(),
            i <= l,
            to_hash@.len() == i,
            forall|a: int| 0 <= a < i ==> #[trigger] to_hash@[a] == inp@[l - 1 - a],
        decreases l - i,
    {
        to_hash.push(inp[l - i - 1]);
        i = i + 1;
    }
    proof {
        lemma_extends_refl(circuit);
        assert forall|a: int| 0 <= a < to_hash@.len() implies circuit.has_var(#[trigger] to_hash@[a])
            && to_hash@[a].round <= round by {
            assert(to_hash@[a] == inp@[l - 1 - a]);
        }
    }
    let ghost mut used: nat = 0;
    let ghost mut lists: Seq<Seq<Variable>> = seq![inp@];
    while to_hash.len() > 1
        invariant
            lists.len() >= 1,
            lists[0] == inp@,
            lists.last().len() == to_hash@.len(),
            forall|a: int| 0 <= a < to_hash@.len() ==> #[trigger] to_hash@[a] == lists.last()[to_hash@.len() - 1 - a],
            forall|j: int| 0 <= j < lists.len() - 1 ==> #[trigger] chunk_step(circuit.cs.all_constraints(), *cfg, rate as nat, lists, j),
            circuit.grown(&c0, used),
            circuit.rounds() == c0.rounds(),
            round < c0.rounds(),
            l == inp@.len(),
            l == 1 || rate >= 2,
            1 <= to_hash@.len() <= l,
            used + chunked_budget(cfg, 1, to_hash@.len() as nat, rate as nat) == total,
            total == chunked_budget(cfg, 1, l as nat, rate as nat),
            chunked_fit(cfg, 1, to_hash@.len() as nat, rate as nat, c0.max_deg()),
            circuit.room(chunked_budget(cfg, 1, to_hash@.len() as nat, rate as nat)),
            forall|a: int| 0 <= a < to_hash@.len() ==> circuit.has_var(#[trigger] to_hash@[a])
                && to_hash@[a].round <= round,
            to_hash@.len() < l ==> to_hash@.last().round == round && !c0.has_var(to_hash@.last()),
            to_hash@.len() == l ==> to_hash@[l - 1] == inp@[0],
        decreases to_hash@.len(),
    {
        let ghost len0 = to_hash@.len() as nat;
        let ghost cb = *circuit;
        let ghost c = chunk_len(len0, rate as nat);
        let ghost ib = (chunked_budget(cfg, 1, len0, rate as nat) - chunked_budget(cfg, 1, (len0 - c + 1) as nat, rate as nat)) as nat;
        let ghost rest = chunked_budget(cfg, 1, (len0 - c + 1) as nat, rate as nat);
        let ghost t0 = to_hash@;
        let ghost lst = lists.last();
        let mut chunk: Vec<Variable> = Vec::new();
        while to_hash.len() > 0 && chunk.len() < rate
            invariant
                t0.len() == len0,
                to_hash@ == t0.take(to_hash@.len() as int),
                forall|a: int| 0 <= a < chunk@.len() ==> #[trigger] chunk@[a] == t0[len0 - 1 - a],
                chunk@.len() + to_hash@.len() == len0,
                chunk@.len() <= rate,
                forall|a: int| 0 <= a < to_hash@.len() ==> circuit.has_var(#[trigger] to_hash@[a])
                    && to_hash@[a].round <= round,
                forall|a: int| 0 <= a < chunk@.len() ==> circuit.has_var(#[trigger] chunk@[a])
                    && chunk@[a].round <= round,
            decreases to_hash@.len(),
        {
            let ghost before = to_hash@;
            let v = to_hash.pop().unwrap();
            proof {
                assert(v == before[before.len() - 1]);
                assert(to_hash@ =~= t0.take(to_hash@.len() as int));
                assert forall|a: int| 0 <= a < to_hash@.len() implies circuit.has_var(#[trigger] to_hash@[a])
                    && to_hash@[a].round <= round by {
                    assert(to_hash@[a] == before[a]);
                }
            }
            chunk.push(v);
        }
        proof {
            assert(chunk@.len() == c);
            assert(len0 > 1 && rate >= 2);
            assert(internal_fit(**cfg, 1, c, c0.max_deg()));
            assert(cb.max_deg() == c0.max_deg());
            assert(chunked_budget(cfg, 1, len0, rate as nat) == ib + rest);
            assert(ib == internal_budget(**cfg, 1, c));
            assert(cb.room(ib));
            assert(Rc::new(**cfg) == *cfg);
        }
        let ghost ch = chunk@;
        proof {
            assert(ch =~= lst.take(c as int)) by {
                assert forall|a: int| 0 <= a < c implies ch[a] == lst[a] by {
                    assert(ch[a] == t0[len0 - 1 - a]);
                }
            }
        }
        let h = poseidon_gadget_internal(circuit, cfg, 1, round, chunk);
        proof {
            lemma_room_step(&cb, circuit, ib, rest);
            lemma_grown_trans(&c0, &cb, circuit, used, ib);
            used = used + ib;
            assert forall|a: int| 0 <= a < to_hash@.len() implies circuit.has_var(#[trigger] to_hash@[a])
                && to_hash@[a].round <= round by {
                assert(cb.has_var(to_hash@[a]));
            }
            if c0.has_var(h) {
                assert(cb.has_var(h));
            }
        }
        let ghost lists0 = lists;
        let ghost tb = to_hash@;
        to_hash.push(h);
        proof {
            let nl = seq![h] + lst.skip(c as int);
            lists = lists.push(nl);
            assert(tb =~= t0.take((len0 - c) as int));
            assert forall|a: int| 0 <= a < to_hash@.len() implies #[trigger] to_hash@[a] == lists.last()[to_hash@.len() - 1 - a] by {
                if a < to_hash@.len() - 1 {
                    assert(to_hash@[a] == t0[a]);
                    assert(t0[a] == lst[len0 - 1 - a]);
                    assert(nl[to_hash@.len() - 1 - a] == lst[c + (len0 - c - 1 - a)]);
                } else {
                    assert(nl[0] == h);
                }
            }
            assert(nl.skip(1) =~= lst.skip(c as int));
            assert forall|j: int| 0 <= j < lists.len() - 1 implies #[trigger] chunk_step(circuit.cs.all_constraints(), *cfg, rate as nat, lists, j) by {
                assert(lists[j] == if j < lists0.len() { lists0[j] } else { nl });
                if j < lists0.len() - 1 {
                    assert(lists[j + 1] == lists0[j + 1]);
                    assert(chunk_step(cb.cs.all_constraints(), *cfg, rate as nat, lists0, j));
                    let lj = lists0[j];
                    let cj = chunk_len(lj.len(), rate as nat);
                    lemma_hashes_kept(&cb, circuit, *cfg, 1, lj.take(cj as int), lists0[j + 1][0]);
                } else {
                    assert(j == lists0.len() - 1);
                    assert(lists[j] == lst);
                    assert(lists[j + 1] == nl);
                    assert(hashes_into(circuit.cs.all_constraints(), *cfg, 1, ch, h));
                }
            }
        }
    }
    proof {
        assert(to_hash@[0] == lists.last()[0]);
        assert(chunked_chain(circuit.cs.all_constraints(), *cfg, rate as nat, inp@, to_hash@[0], lists));
    }
    to_hash[0]
}

} // verus!
