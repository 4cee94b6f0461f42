//! The list of variables to be checked nonzero together.

use vstd::prelude::*;
use crate::constraint_system::Variable;
use crate::circuit::{Circuit, has_gate, lemma_grown_trans, lemma_room_step, lemma_room_left, lemma_extends_refl, lemma_gate_kept};
use crate::gatelib::{LibGate, GateKind};
use crate::advice::AdviceKind;
use crate::gadgets::running_prod::{prod_run_gadget, run_degree};
use crate::circuit::{satisfied, var_val, lemma_satisfied_kept, lemma_constraint_arity};
use crate::witness::CSWtns;
use crate::run::{assigned_vals, constraint_holds};
use crate::field::{fmul, fsub, vals, fprod, lemma_fprod_nonzero, lemma_fmul_lt, lemma_fsub_zero};
use crate::gate::Gate;

verus! {

/// Variables to be checked nonzero, in chunks of `rate`.
pub struct Nonzeros {
    entries: Vec<Variable>,
    rate: usize,
}

impl Nonzeros {
    /// The variables added so far.
    pub closed spec fn entries_view(&self) -> Seq<Variable> {
        self.entries@
    }

    /// The chunk size.
    pub closed spec fn rate_view(&self) -> usize {
        self.rate
    }

    pub fn new(rate: usize) -> (r: Self)
        ensures
            r.entries_view() == Seq::<Variable>::empty(),
            r.rate_view() == rate,
    {
        Self { entries: Vec::new(), rate }
    }

    /// Adds a variable to check.
    pub fn push(&mut self, v: Variable)
        ensures
            final(self).entries_view() == old(self).entries_view().push(v),
            final(self).rate_view() == old(self).rate_view(),
    {
        self.entries.push(v);
    }

    /// The variables added so far.
    pub fn entries(&self) -> (r: &Vec<Variable>)
        ensures
            r@ == self.entries_view(),
    {
        &self.entries
    }

    /// The chunk size.
    pub fn rate(&self) -> (r: usize)
        ensures
            r == self.rate_view(),
    {
        self.rate
    }
}

/// The constraints hold the check that `p` has an inverse: a gate
/// `p * q - 1` on `(p, q)`.
pub open spec fn has_nonzero_check(cs: Seq<crate::constraint_system::Constraint<LibGate>>, p: Variable) -> bool {
    exists|k: int|
        0 <= k < cs.len() && (#[trigger] cs[k]).gate.kind() == GateKind::NonzeroCheck && cs[k].inputs@.len() == 2
            && cs[k].inputs@[0] == p
}

/// The largest round of the variables, 0 for none.
pub open spec fn max_round(v: Seq<Variable>) -> nat
    decreases v.len(),
{
    if v.len() == 0 {
        0
    } else {
        let m = max_round(v.drop_last());
        if v.last().round > m {
            v.last().round as nat
        } else {
            m
        }
    }
}

proof fn lemma_max_round(v: Seq<Variable>)
    ensures
        forall|a: int| 0 <= a < v.len() ==> (#[trigger] v[a]).round <= max_round(v),
        v.len() > 0 ==> exists|a: int| 0 <= a < v.len() && (#[trigger] v[a]).round == max_round(v),
    decreases v.len(),
{
    if v.len() > 0 {
        lemma_max_round(v.drop_last());
        assert forall|a: int| 0 <= a < v.len() implies (#[trigger] v[a]).round <= max_round(v) by {
            if a < v.len() - 1 {
                assert(v[a] == v.drop_last()[a]);
            }
        }
        if v.last().round > max_round(v.drop_last()) || v.len() == 1 {
            assert(v[v.len() - 1].round == max_round(v));
        } else {
            let a = choose|a: int| 0 <= a < v.drop_last().len() && (#[trigger] v.drop_last()[a]).round == max_round(v.drop_last());
            assert(v[a] == v.drop_last()[a]);
        }
    }
}

/// Checks that the variables are all nonzero: their product, multiplied
/// `rate` at a time, has an inverse, which an advice computes (and fails to
/// for a zero product) in the latest round of the variables.
pub fn nonzero_gadget(circuit: &mut Circuit, input: &[Variable], rate: usize)
    requires
        old(circuit).wf(),
        rate > 0,
        old(circuit).rounds() > 0,
        old(circuit).has_var(old(circuit).one_spec()),
        forall|a: int| 0 <= a < input@.len() ==> old(circuit).has_var(#[trigger] input@[a]),
        run_degree(input@.len(), rate as nat) <= old(circuit).max_deg(),
        input@.len() + 1 <= usize::MAX,
        old(circuit).room(2 * input@.len() + 4),
    ensures
        final(circuit).grown(old(circuit), 2 * input@.len() + 4),
        exists|p: Variable| #[trigger] has_nonzero_check(final(circuit).cs.all_constraints(), p)
            && (input@.len() == 1 ==> p == input@[0]) && (input@.len() == 0 ==> p == old(circuit).one_spec()),
        forall|w: CSWtns| #[trigger] satisfied(*final(circuit), w) ==> forall|a: int|
            0 <= a < input@.len() ==> var_val(w, input@[a]) != 0,
{
    let mut round: usize = 0;
    let mut k: usize = 0;
    proof {
        lemma_max_round(input@);
    }
    while k < input.len()
        invariant
            k <= input@.len(),
            round == max_round(input@.take(k as int)),
        decreases input@.len() - k,
    {
        proof {
            assert(input@.take(k + 1).drop_last() =~= input@.take(k as int));
        }
        if input[k].round > round {
            round = input[k].round;
        }
        k = k + 1;
    }
    proof {
        assert(input@.take(input@.len() as int) =~= input@);
        if input@.len() > 0 {
            let a = choose|a: int| 0 <= a < input@.len() && (#[trigger] input@[a]).round == max_round(input@);
            assert(old(circuit).has_var(input@[a]));
        }
        lemma_extends_refl(old(circuit));
    }
    let prod = prod_run_gadget(circuit, crate::constraint_system::copy_vars(input), round, rate);
    let ghost mid = *circuit;
    proof {
        lemma_room_step(old(circuit), &mid, 2 * input@.len() + 2, 2);
        if input@.len() == 0 {
            assert(mid.has_var(prod));
        }
    }
    let inv = circuit.advice(round, AdviceKind::Invert, vec![prod]);
    let ghost mid2 = *circuit;
    proof {
        lemma_room_step(&mid, &mid2, 1, 1);
        assert(inv@ =~= seq![inv@[0]]);
    }
    let io = vec![prod, inv[0]];
    proof {
        assert(io@ =~= seq![prod, inv@[0]]);
    }
    circuit.constrain(io.as_slice(), LibGate::new(GateKind::NonzeroCheck));
    proof {
        lemma_grown_trans(&mid, &mid2, circuit, 1, 1);
        lemma_grown_trans(old(circuit), &mid, circuit, 2 * input@.len() + 2, 2);
        let cs = circuit.cs.all_constraints();
        let kk = choose|kk: int| 0 <= kk < cs.len() && (#[trigger] cs[kk]).gate.kind() == GateKind::NonzeroCheck && cs[kk].inputs@ == seq![prod, inv@[0]];
        assert(cs[kk].inputs@[0] == prod);
        assert(has_nonzero_check(cs, prod));
        assert forall|w: CSWtns| #[trigger] satisfied(*circuit, w) implies forall|a: int|
            0 <= a < input@.len() ==> var_val(w, input@[a]) != 0 by {
            if input@.len() > 0 {
                assert(constraint_holds(cs[kk], w));
                let x = assigned_vals(w, cs[kk].inputs@);
                let (p0, p1) = (x[0].val(), x[1].val());
                assert(cs[kk].gate.spec_exec(x)[0] == 0);
                assert(fsub(fmul(p0, p1), 1) == 0);
                lemma_fmul_lt(p0, p1);
                lemma_fsub_zero(fmul(p0, p1), 1);
                if p0 == 0 {
                    assert(0 * p1 == 0) by (nonlinear_arith);
                }
                lemma_satisfied_kept(&mid, circuit, w);
                assert(var_val(w, prod) == p0);
                let vs = vals(assigned_vals(w, input@));
                lemma_fprod_nonzero(vs);
                assert forall|a: int| 0 <= a < input@.len() implies var_val(w, input@[a]) != 0 by {
                    assert(vs[a] == var_val(w, input@[a]));
                }
            }
        }
    }
}

impl Nonzeros {
    /// Checks the variables collected to be nonzero.
    pub fn finalize(self, circuit: &mut Circuit)
        requires
            old(circuit).wf(),
            self.rate_view() > 0,
            old(circuit).rounds() > 0,
            old(circuit).has_var(old(circuit).one_spec()),
            forall|a: int| 0 <= a < self.entries_view().len() ==> old(circuit).has_var(#[trigger] self.entries_view()[a]),
            run_degree(self.entries_view().len(), self.rate_view() as nat) <= old(circuit).max_deg(),
            self.entries_view().len() + 1 <= usize::MAX,
            old(circuit).room(2 * self.entries_view().len() + 4),
        ensures
            final(circuit).grown(old(circuit), 2 * self.entries_view().len() + 4),
            exists|p: Variable| #[trigger] has_nonzero_check(final(circuit).cs.all_constraints(), p)
                && (self.entries_view().len() == 1 ==> p == self.entries_view()[0]),
            forall|w: CSWtns| #[trigger] satisfied(*final(circuit), w) ==> forall|a: int|
                0 <= a < self.entries_view().len() ==> var_val(w, self.entries_view()[a]) != 0,
    {
        nonzero_gadget(circuit, self.entries.as_slice(), self.rate);
    }
}

} // verus!
