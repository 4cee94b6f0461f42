//! Circuits: advices and polynomial operations placed in rounds, with the
//! constraints that check them. A finished circuit spawns runs, which execute
//! the operations round by round and fill the witness.

use vstd::prelude::*;
use crate::field::{Fe, vals};
use crate::constraint_system::{
    CommitKind, Visibility, Variable, ExternalValue, ProtoGalaxyConstraintSystem, WitnessSpec, RoundWitnessSpec,
    var_range, groups_rhs, added_one, keeps, copy_vars,
};
use crate::gate::Gate;
use crate::gatelib::{LibGate, GateKind, PolyKind, poly_i, poly_o, poly_d, poly_wf, kind_wf, kind_d, kind_i, kind_o, kind_out};
use crate::advice::{AdviceKind, advice_wf, advice_arity, advice_o, advice_ok, advice_out, compute_advice};
use crate::gatelib::{poly_out, apply_poly};
use crate::witness::{CSWtns, ProtostarWtns};
use crate::run::{assigned_vals, constraint_holds, witness_satisfies, protostar_challenges, protostar_witness, fully_assigned};
use crate::external_interface::{RunAllocator, RunIndex};

verus! {

/// An operation of a circuit: it computes its output variables.
pub enum Operation {
    /// An advice on external values, with public outputs.
    AdvicePub { aux: Vec<ExternalValue>, output: Vec<Variable>, kind: AdviceKind },
    /// An advice on variables, with private outputs.
    Advice { input: Vec<Variable>, output: Vec<Variable>, kind: AdviceKind },
    /// A polynomial map of variables, constrained as it is computed.
    Poly { input: Vec<Variable>, output: Vec<Variable>, poly: PolyKind },
}

/// The variables an operation reads.
pub open spec fn op_inputs(op: Operation) -> Seq<Variable> {
    match op {
        Operation::AdvicePub { .. } => Seq::empty(),
        Operation::Advice { input, .. } => input@,
        Operation::Poly { input, .. } => input@,
    }
}

/// The variables an operation writes.
pub open spec fn op_outputs(op: Operation) -> Seq<Variable> {
    match op {
        Operation::AdvicePub { output, .. } => output@,
        Operation::Advice { output, .. } => output@,
        Operation::Poly { output, .. } => output@,
    }
}

/// The variable has been allocated in the witness shape.
pub open spec fn allocated(ws: WitnessSpec, v: Variable) -> bool {
    &&& v.round < ws.round_specs@.len()
    &&& match v.visibility {
        Visibility::Public => v.index < ws.round_specs@[v.round as int].pubs,
        Visibility::Private => v.index < ws.round_specs@[v.round as int].privs,
    }
}

/// The external values exist.
pub open spec fn exts_below(aux: Seq<ExternalValue>, n: nat) -> bool {
    forall|a: int| 0 <= a < aux.len() ==> (#[trigger] aux[a]).addr < n
}

/// The operation's parameters and its numbers of inputs and outputs agree.
pub open spec fn op_shape(op: Operation, num_exts: nat) -> bool {
    match op {
        Operation::AdvicePub { aux, output, kind } => advice_wf(kind) && advice_arity(kind, aux@.len()) && output@.len()
            == advice_o(kind, aux@.len()) && exts_below(aux@, num_exts),
        Operation::Advice { input, output, kind } => advice_wf(kind) && advice_arity(kind, input@.len()) && output@.len()
            == advice_o(kind, input@.len()),
        Operation::Poly { input, output, poly } => poly_wf(poly) && input@.len() == poly_i(poly) && output@.len()
            == poly_o(poly),
    }
}

/// The outputs are distinct variables of round `r`, written by operation `j`.
pub open spec fn outputs_owned(out: Seq<Variable>, r: nat, j: int, owner: Map<Variable, int>) -> bool {
    &&& forall|a: int, b: int| 0 <= a < b < out.len() ==> out[a] != out[b]
    &&& forall|a: int|
        0 <= a < out.len() ==> owner.dom().contains(#[trigger] out[a]) && owner[out[a]] == j && out[a].round == r
}

/// The inputs are written before operation `j` of round `r`: in an earlier
/// round, or by an earlier operation of the round.
pub open spec fn inputs_before(inp: Seq<Variable>, r: nat, j: int, owner: Map<Variable, int>) -> bool {
    forall|a: int|
        0 <= a < inp.len() ==> owner.dom().contains(#[trigger] inp[a]) && inp[a].round <= r && (inp[a].round == r
            ==> owner[inp[a]] < j)
}

/// Operation `j` of round `r` is well placed.
pub open spec fn op_wf(op: Operation, r: nat, j: int, owner: Map<Variable, int>, ws: WitnessSpec) -> bool {
    &&& outputs_owned(op_outputs(op), r, j, owner)
    &&& inputs_before(op_inputs(op), r, j, owner)
    &&& op_shape(op, ws.num_exts as nat)
}

/// The rounds of operations as sequences.
pub open spec fn rows(ops: Seq<Vec<Operation>>) -> Seq<Seq<Operation>> {
    Seq::new(ops.len(), |r: int| ops[r]@)
}

/// A circuit under construction: the constraint system, the operations of
/// each round, the largest degree of an applied polynomial, and which
/// operation writes each variable.
pub struct Circuit {
    pub cs: ProtoGalaxyConstraintSystem<LibGate>,
    pub ops: Vec<Vec<Operation>>,
    pub max_degree: usize,
    pub owner: Ghost<Map<Variable, int>>,
}

impl Circuit {
    /// The operations, by round.
    pub closed spec fn ops_view(&self) -> Seq<Seq<Operation>> {
        rows(self.ops@)
    }

    /// The largest degree an applied polynomial may have.
    pub closed spec fn max_deg(&self) -> nat {
        self.max_degree as nat
    }

    /// The number of rounds.
    pub open spec fn rounds(&self) -> nat {
        self.cs.wspec().round_specs@.len()
    }

    /// The variable has been allocated.
    pub open spec fn has_var(&self, v: Variable) -> bool {
        allocated(self.cs.wspec(), v)
    }

    /// The counts of constraint outputs can grow by `m`.
    pub open spec fn rhs_room(&self, m: nat) -> bool {
        &&& self.cs.linear().num_rhs + m <= usize::MAX
        &&& groups_rhs(self.cs.groups()) + m <= usize::MAX
    }

    /// Every counter of the circuit can grow by `m`.
    pub open spec fn room(&self, m: nat) -> bool {
        &&& self.rhs_room(m)
        &&& self.cs.wspec().num_exts + m <= usize::MAX
        &&& forall|r: int|
            0 <= r < self.rounds() ==> (#[trigger] self.cs.wspec().round_specs@[r]).pubs + m <= usize::MAX
                && self.cs.wspec().round_specs@[r].privs + m <= usize::MAX
    }

    /// Every counter grew by at most `m` since `before`.
    pub open spec fn grew(&self, before: &Self, m: nat) -> bool {
        &&& self.cs.linear().num_rhs <= before.cs.linear().num_rhs + m
        &&& groups_rhs(self.cs.groups()) <= groups_rhs(before.cs.groups()) + m
        &&& self.cs.wspec().num_exts <= before.cs.wspec().num_exts + m
        &&& forall|r: int|
            0 <= r < self.rounds() ==> (#[trigger] self.cs.wspec().round_specs@[r]).pubs
                <= before.cs.wspec().round_specs@[r].pubs + m && self.cs.wspec().round_specs@[r].privs
                <= before.cs.wspec().round_specs@[r].privs + m
    }

    /// `self` is `before` with operations, variables and constraints added.
    pub open spec fn extends(&self, before: &Self) -> bool {
        &&& self.rounds() == before.rounds()
        &&& self.ops_view().len() == before.ops_view().len()
        &&& forall|r: int|
            0 <= r < before.ops_view().len() ==> before.ops_view()[r].len() <= (#[trigger] self.ops_view()[r]).len()
        &&& forall|r: int, j: int|
            0 <= r < before.ops_view().len() && 0 <= j < before.ops_view()[r].len() ==> (
            #[trigger] self.ops_view()[r][j]) == before.ops_view()[r][j]
        &&& forall|v: Variable| before.has_var(v) ==> #[trigger] self.has_var(v)
        &&& keeps(self.cs.all_constraints(), before.cs.all_constraints())
        &&& before.cs.wspec().num_exts <= self.cs.wspec().num_exts
        &&& self.max_deg() == before.max_deg()
    }

    /// The structure of the circuit: each variable is written by exactly one
    /// operation, after the operations that write its inputs, and
    /// constraints speak of allocated variables.
    pub closed spec fn wf(&self) -> bool {
        let ws = self.cs.wspec();
        let owner = self.owner@;
        &&& self.cs.wf()
        &&& self.ops@.len() == ws.round_specs@.len()
        &&& forall|v: Variable| #![trigger owner.dom().contains(v)] #![trigger allocated(ws, v)]
            owner.dom().contains(v) <==> allocated(ws, v)
        &&& forall|v: Variable|
            owner.dom().contains(v) ==> 0 <= #[trigger] owner[v] < self.ops@[v.round as int]@.len() && op_outputs(
                self.ops@[v.round as int]@[owner[v]],
            ).contains(v)
        &&& forall|r: int, j: int|
            0 <= r < self.ops@.len() && 0 <= j < self.ops@[r]@.len() ==> op_wf(
                #[trigger] self.ops@[r]@[j],
                r as nat,
                j,
                owner,
                ws,
            )
        &&& forall|k: int, a: int|
            0 <= k < self.cs.all_constraints().len() && 0 <= a < self.cs.all_constraints()[k].inputs@.len()
                ==> allocated(ws, #[trigger] self.cs.all_constraints()[k].inputs@[a])
        &&& forall|k: int|
            0 <= k < self.cs.all_constraints().len() ==> (#[trigger] self.cs.all_constraints()[k]).inputs@.len()
                == self.cs.all_constraints()[k].gate.spec_i()
    }
}

/// Room shrinks by what was used.
pub proof fn lemma_room_step(before: &Circuit, after: &Circuit, used: nat, rest: nat)
    requires
        before.room(used + rest),
        after.grew(before, used),
        after.rounds() == before.rounds(),
    ensures
        after.room(rest),
{
    assert forall|r: int| 0 <= r < after.rounds() implies (#[trigger] after.cs.wspec().round_specs@[r]).pubs + rest
        <= usize::MAX && after.cs.wspec().round_specs@[r].privs + rest <= usize::MAX by {
        assert(before.cs.wspec().round_specs@[r].pubs + used + rest <= usize::MAX);
    }
}

/// Growth adds up.
pub proof fn lemma_grew_trans(a: &Circuit, b: &Circuit, c: &Circuit, m1: nat, m2: nat)
    requires
        b.grew(a, m1),
        c.grew(b, m2),
        b.rounds() == a.rounds(),
        c.rounds() == b.rounds(),
    ensures
        c.grew(a, m1 + m2),
{
    assert forall|r: int| 0 <= r < c.rounds() implies (#[trigger] c.cs.wspec().round_specs@[r]).pubs
        <= a.cs.wspec().round_specs@[r].pubs + (m1 + m2) && c.cs.wspec().round_specs@[r].privs
        <= a.cs.wspec().round_specs@[r].privs + (m1 + m2) by {
        assert(b.cs.wspec().round_specs@[r].pubs <= a.cs.wspec().round_specs@[r].pubs + m1);
    }
}

/// Extension is transitive.
pub proof fn lemma_extends_trans(a: &Circuit, b: &Circuit, c: &Circuit)
    requires
        b.extends(a),
        c.extends(b),
    ensures
        c.extends(a),
{
    assert forall|r: int, j: int|
        0 <= r < a.ops_view().len() && 0 <= j < a.ops_view()[r].len() implies (#[trigger] c.ops_view()[r][j])
        == a.ops_view()[r][j] by {
        assert(b.ops_view()[r][j] == a.ops_view()[r][j]);
    }
    assert forall|r: int| 0 <= r < a.ops_view().len() implies a.ops_view()[r].len() <= (
    #[trigger] c.ops_view()[r]).len() by {
        assert(b.ops_view()[r].len() <= c.ops_view()[r].len());
    }
    assert forall|k: int| 0 <= k < a.cs.all_constraints().len() implies #[trigger] c.cs.all_constraints().contains(
        a.cs.all_constraints()[k],
    ) by {
        assert(b.cs.all_constraints().contains(a.cs.all_constraints()[k]));
        let i = choose|i: int| 0 <= i < b.cs.all_constraints().len() && b.cs.all_constraints()[i] == a.cs.all_constraints()[k];
        assert(c.cs.all_constraints().contains(b.cs.all_constraints()[i]));
    }
}

/// The number of outputs of an advice.
fn advice_outputs(kind: &AdviceKind, ni: usize) -> (r: usize)
    requires
        advice_wf(*kind),
    ensures
        r == advice_o(*kind, ni as nat),
{
    match kind {
        AdviceKind::Copy => ni,
        AdviceKind::Chunks { n, .. } => *n,
        AdviceKind::Limbs { n, .. } => *n,
        AdviceKind::InvSum { l, rate } => if *rate == 0 {
            0
        } else {
            *l / *rate
        },
        AdviceKind::FracSum { dens, rate } => if *rate == 0 {
            0
        } else {
            dens.len() / *rate
        },
        AdviceKind::AccessCounts { table } => table.len(),
        AdviceKind::PoseidonPartial { cfg, t } => if *t >= 2 && *t - 2 < cfg.constants.n_rounds_p.len() {
            if cfg.constants.n_rounds_p[*t - 2] <= usize::MAX - *t {
                cfg.constants.n_rounds_p[*t - 2] + *t
            } else {
                0
            }
        } else {
            0
        },
        AdviceKind::EcAdd => 2,
        AdviceKind::EcDouble => 2,
        AdviceKind::ScalarMul9 { n } => 8 * (*n - 1),
        _ => 1,
    }
}

impl Circuit {
    /// The variables of the output are fresh: allocated now, private or
    /// public as asked, in the round, distinct.
    pub open spec fn fresh(&self, before: &Self, out: Seq<Variable>, round: nat, vis: Visibility) -> bool {
        &&& forall|a: int| 0 <= a < out.len() ==> #[trigger] self.has_var(out[a]) && !before.has_var(out[a])
        &&& forall|a: int| 0 <= a < out.len() ==> (#[trigger] out[a]).round == round && out[a].visibility == vis
        &&& forall|a: int, b: int| 0 <= a < b < out.len() ==> out[a] != out[b]
    }

    /// Records a new operation in round `round`, writing `output`, freshly
    /// allocated.
    fn push_op(&mut self, round: usize, op: Operation, Ghost(before): Ghost<Circuit>)
        requires
            round < old(self).ops@.len(),
            before.wf(),
            old(self).ops@ == before.ops@,
            old(self).owner@ == before.owner@,
            old(self).cs.wf(),
            old(self).cs.all_constraints() == before.cs.all_constraints(),
            old(self).cs.wspec().num_exts == before.cs.wspec().num_exts,
            old(self).cs.wspec().round_specs@.len() == before.cs.wspec().round_specs@.len(),
            forall|v: Variable| #[trigger] allocated(old(self).cs.wspec(), v) <==> (allocated(before.cs.wspec(), v)
                || op_outputs(op).contains(v)),
            forall|a: int| 0 <= a < op_outputs(op).len() ==> !allocated(before.cs.wspec(), #[trigger] op_outputs(op)[a]),
            forall|a: int| 0 <= a < op_outputs(op).len() ==> (#[trigger] op_outputs(op)[a]).round == round,
            forall|a: int, b: int| 0 <= a < b < op_outputs(op).len() ==> op_outputs(op)[a] != op_outputs(op)[b],
            forall|a: int| 0 <= a < op_inputs(op).len() ==> allocated(before.cs.wspec(), #[trigger] op_inputs(op)[a])
                && op_inputs(op)[a].round <= round,
            op_shape(op, before.cs.wspec().num_exts as nat),
            old(self).max_degree == before.max_degree,
        ensures
            final(self).wf(),
            final(self).cs == old(self).cs,
            final(self).max_degree == old(self).max_degree,
            final(self).ops_view() == before.ops_view().update(
                round as int,
                before.ops_view()[round as int].push(op),
            ),
    {
        let ghost j = before.ops@[round as int]@.len() as int;
        let ghost old_owner = before.owner@;
        let ghost out = op_outputs(op);
        let ghost new_owner = old_owner.union_prefer_right(Map::new(|v: Variable| out.contains(v), |v: Variable| j));
        let mut row = self.ops.remove(round);
        row.push(op);
        self.ops.insert(round, row);
        self.owner = Ghost(new_owner);
        proof {
            let ws = self.cs.wspec();
            let ops = self.ops@;
            assert(ops =~= before.ops@.update(round as int, row));
            assert(row@ == before.ops@[round as int]@.push(op));
            assert forall|v: Variable| #![trigger new_owner.dom().contains(v)] #![trigger allocated(ws, v)]
                new_owner.dom().contains(v) <==> allocated(ws, v) by {
                assert(old_owner.dom().contains(v) <==> allocated(before.cs.wspec(), v));
            }
            assert forall|v: Variable| new_owner.dom().contains(v) implies 0 <= #[trigger] new_owner[v]
                < ops[v.round as int]@.len() && op_outputs(ops[v.round as int]@[new_owner[v]]).contains(v) by {
                if out.contains(v) {
                    let a = choose|a: int| 0 <= a < out.len() && out[a] == v;
                    assert(out[a].round == round);
                } else {
                    assert(old_owner.dom().contains(v));
                    assert(0 <= old_owner[v] < before.ops@[v.round as int]@.len());
                    assert(allocated(before.cs.wspec(), v));
                }
            }
            assert forall|r: int, jj: int| 0 <= r < ops.len() && 0 <= jj < ops[r]@.len() implies op_wf(
                #[trigger] ops[r]@[jj],
                r as nat,
                jj,
                new_owner,
                ws,
            ) by {
                if r == round && jj == j {
                    assert(ops[r]@[jj] == op);
                    assert forall|a: int| 0 <= a < out.len() implies new_owner.dom().contains(#[trigger] out[a])
                        && new_owner[out[a]] == jj && out[a].round == r as nat by {
                        assert(out.contains(out[a]));
                    }
                    let inp = op_inputs(op);
                    assert forall|a: int| 0 <= a < inp.len() implies new_owner.dom().contains(#[trigger] inp[a])
                        && inp[a].round <= r as nat && (inp[a].round == r as nat ==> new_owner[inp[a]] < jj) by {
                        assert(allocated(before.cs.wspec(), inp[a]));
                        assert(old_owner.dom().contains(inp[a]));
                        if out.contains(inp[a]) {
                            let b = choose|b: int| 0 <= b < out.len() && out[b] == inp[a];
                            assert(!allocated(before.cs.wspec(), out[b]));
                        }
                        if inp[a].round == r as nat {
                            assert(old_owner[inp[a]] < before.ops@[r]@.len());
                        }
                    }
                } else {
                    let opp = ops[r]@[jj];
                    assert(opp == before.ops@[r]@[jj]);
                    assert(op_wf(opp, r as nat, jj, old_owner, before.cs.wspec()));
                    let o2 = op_outputs(opp);
                    assert forall|a: int| 0 <= a < o2.len() implies new_owner.dom().contains(#[trigger] o2[a])
                        && new_owner[o2[a]] == jj && o2[a].round == r as nat by {
                        assert(old_owner.dom().contains(o2[a]));
                        assert(allocated(before.cs.wspec(), o2[a]));
                        if out.contains(o2[a]) {
                            let b = choose|b: int| 0 <= b < out.len() && out[b] == o2[a];
                            assert(!allocated(before.cs.wspec(), out[b]));
                        }
                    }
                    let i2 = op_inputs(opp);
                    assert forall|a: int| 0 <= a < i2.len() implies new_owner.dom().contains(#[trigger] i2[a])
                        && i2[a].round <= r as nat && (i2[a].round == r as nat ==> new_owner[i2[a]] < jj) by {
                        assert(old_owner.dom().contains(i2[a]));
                        assert(allocated(before.cs.wspec(), i2[a]));
                        if out.contains(i2[a]) {
                            let b = choose|b: int| 0 <= b < out.len() && out[b] == i2[a];
                            assert(!allocated(before.cs.wspec(), out[b]));
                        }
                    }
                }
            }
            assert forall|k: int, a: int|
                0 <= k < self.cs.all_constraints().len() && 0 <= a < self.cs.all_constraints()[k].inputs@.len()
                    implies allocated(ws, #[trigger] self.cs.all_constraints()[k].inputs@[a]) by {
                assert(allocated(before.cs.wspec(), self.cs.all_constraints()[k].inputs@[a]));
            }
            assert forall|k: int| 0 <= k < self.cs.all_constraints().len() implies (
            #[trigger] self.cs.all_constraints()[k]).inputs@.len() == self.cs.all_constraints()[k].gate.spec_i() by {
                assert(self.cs.all_constraints()[k] == before.cs.all_constraints()[k]);
            }
            assert(self.ops_view() =~= before.ops_view().update(round as int, before.ops_view()[round as int].push(op)));
        }
    }
}

/// The constraints hold a gate of kind `kind` on `inputs`.
pub open spec fn has_gate(cs: Seq<crate::constraint_system::Constraint<LibGate>>, kind: GateKind, inputs: Seq<Variable>) -> bool {
    exists|k: int| 0 <= k < cs.len() && (#[trigger] cs[k]).gate.kind() == kind && cs[k].inputs@ == inputs
}

/// The operations after pushing one in `round`: the others unchanged.
pub open spec fn pushed(after: Seq<Seq<Operation>>, before: Seq<Seq<Operation>>, round: int) -> bool {
    &&& after.len() == before.len()
    &&& forall|r: int| 0 <= r < before.len() && r != round ==> #[trigger] after[r] == before[r]
    &&& after[round].len() == before[round].len() + 1
    &&& after[round].drop_last() == before[round]
}

/// The operation is the advice `kind` from `input` to `output`.
pub open spec fn is_advice(op: Operation, input: Seq<Variable>, output: Seq<Variable>, kind: AdviceKind) -> bool {
    op matches Operation::Advice { input: i, output: o, kind: k } && i@ == input && o@ == output && k == kind
}

/// The operation is the public advice `kind` from `aux` to `output`.
pub open spec fn is_advice_pub(op: Operation, aux: Seq<ExternalValue>, output: Seq<Variable>, kind: AdviceKind) -> bool {
    op matches Operation::AdvicePub { aux: x, output: o, kind: k } && x@ == aux && o@ == output && k == kind
}

/// The operation is the polynomial `poly` from `input` to `output`.
pub open spec fn is_poly(op: Operation, input: Seq<Variable>, output: Seq<Variable>, poly: PolyKind) -> bool {
    op matches Operation::Poly { input: i, output: o, poly: p } && i@ == input && o@ == output && p == poly
}

/// Allocating `size` variables of a visibility in a round adds exactly the
/// variables of `var_range`, fresh and distinct.
proof fn lemma_alloc(before: WitnessSpec, after: WitnessSpec, round: usize, vis: Visibility, size: nat, out: Seq<Variable>)
    requires
        round < before.round_specs@.len(),
        after.round_specs@.len() == before.round_specs@.len(),
        forall|r: int| 0 <= r < before.round_specs@.len() && r != round ==> #[trigger] after.round_specs@[r]
            == before.round_specs@[r],
        vis == Visibility::Public ==> after.round_specs@[round as int].pubs == before.round_specs@[round as int].pubs + size
            && after.round_specs@[round as int].privs == before.round_specs@[round as int].privs && out == var_range(
            vis,
            round,
            before.round_specs@[round as int].pubs as nat,
            size,
        ),
        vis == Visibility::Private ==> after.round_specs@[round as int].privs == before.round_specs@[round as int].privs
            + size && after.round_specs@[round as int].pubs == before.round_specs@[round as int].pubs && out == var_range(
            vis,
            round,
            before.round_specs@[round as int].privs as nat,
            size,
        ),
    ensures
        forall|v: Variable| #[trigger] allocated(after, v) <==> (allocated(before, v) || out.contains(v)),
        forall|a: int| 0 <= a < out.len() ==> !allocated(before, #[trigger] out[a]),
        forall|a: int| 0 <= a < out.len() ==> (#[trigger] out[a]).round == round && out[a].visibility == vis,
        forall|a: int, b: int| 0 <= a < b < out.len() ==> out[a] != out[b],
        out.len() == size,
{
    let prev: nat = match vis {
        Visibility::Public => before.round_specs@[round as int].pubs as nat,
        Visibility::Private => before.round_specs@[round as int].privs as nat,
    };
    assert forall|v: Variable| #[trigger] allocated(after, v) <==> (allocated(before, v) || out.contains(v)) by {
        if v.round == round && v.visibility == vis && prev <= v.index < prev + size {
            assert(out[v.index - prev] == v);
        }
        if out.contains(v) {
            let a = choose|a: int| 0 <= a < out.len() && out[a] == v;
            assert(out[a].index == prev + a);
        }
        if v.round < before.round_specs@.len() && v.round != round {
            assert(after.round_specs@[v.round as int] == before.round_specs@[v.round as int]);
        }
    }
}

impl Circuit {
    /// An empty circuit of `num_rounds` rounds whose applied polynomials have
    /// degree at most `max_degree`; it starts with the public unit, the
    /// variable `one()`, loaded in round 0.
    pub fn new(max_degree: usize, num_rounds: usize) -> (r: Self)
        requires
            num_rounds >= 1,
        ensures
            r.wf(),
            r.rounds() == num_rounds,
            r.max_deg() == max_degree,
            r.cs.all_constraints().len() == 0,
            r.cs.wspec().num_exts == 0,
            r.cs.wspec().round_specs@[0] == (RoundWitnessSpec { pubs: 1, privs: 0 }),
            forall|i: int| 1 <= i < num_rounds ==> #[trigger] r.cs.wspec().round_specs@[i] == (RoundWitnessSpec {
                pubs: 0,
                privs: 0,
            }),
            r.has_var(r.one_spec()),
            r.ops_view().len() == num_rounds,
            r.ops_view()[0].len() == 1,
            r.ops_view()[0][0] matches Operation::AdvicePub { aux, output, kind: AdviceKind::Const { c } } && aux@.len()
                == 0 && output@ == seq![r.one_spec()] && c.val() == 1,
            forall|i: int| 1 <= i < num_rounds ==> (#[trigger] r.ops_view()[i]).len() == 0,
            r.room((usize::MAX - 1) as nat),
    {
        let cs: ProtoGalaxyConstraintSystem<LibGate> = ProtoGalaxyConstraintSystem::new(num_rounds);
        let mut ops: Vec<Vec<Operation>> = Vec::new();
        let mut i: usize = 0;
        while i < num_rounds
            invariant
                i <= num_rounds,
                ops@.len() == i,
                forall|k: int| 0 <= k < i ==> (#[trigger] ops@[k])@.len() == 0,
            decreases num_rounds - i,
        {
            ops.push(Vec::new());
            i = i + 1;
        }
        let mut c = Circuit { cs, ops, max_degree, owner: Ghost(Map::empty()) };
        proof {
            assert forall|v: Variable| #![trigger c.owner@.dom().contains(v)] #![trigger allocated(c.cs.wspec(), v)]
                c.owner@.dom().contains(v) <==> allocated(c.cs.wspec(), v) by {
                if v.round < num_rounds {
                    assert(c.cs.wspec().round_specs@[v.round as int] == (RoundWitnessSpec { pubs: 0, privs: 0 }));
                }
            }
        }
        proof {
            assert forall|r: int| 0 <= r < c.rounds() implies (#[trigger] c.cs.wspec().round_specs@[r]).pubs + 1
                <= usize::MAX && c.cs.wspec().round_specs@[r].privs + 1 <= usize::MAX by {}
        }
        let one = c.advice_pub(0, AdviceKind::Const { c: Fe::one() }, Vec::new());
        proof {
            assert(c.ops_view()[0] =~= seq![c.ops_view()[0][0]]);
            assert(one@[0] == c.one_spec());
            assert(seq![one@[0]] =~= one@);
            assert(c.room((usize::MAX - 1) as nat)) by {
                assert(c.cs.wspec().round_specs@[0] == (RoundWitnessSpec { pubs: 1, privs: 0 }));
            }
        }
        c
    }

    /// The public unit, loaded first.
    pub open spec fn one_spec(&self) -> Variable {
        Variable { visibility: Visibility::Public, round: 0, index: 0 }
    }

    /// The public unit, loaded first.
    pub fn one(&self) -> (r: Variable)
        ensures
            r == self.one_spec(),
    {
        Variable { visibility: Visibility::Public, round: 0, index: 0 }
    }

    /// Adds an advice in `round` on variables of that round or earlier; its
    /// outputs are new private variables of the round.
    pub fn advice(&mut self, round: usize, kind: AdviceKind, input: Vec<Variable>) -> (r: Vec<Variable>)
        requires
            old(self).wf(),
            round < old(self).rounds(),
            forall|a: int| 0 <= a < input@.len() ==> old(self).has_var(#[trigger] input@[a]) && input@[a].round <= round,
            advice_wf(kind),
            advice_arity(kind, input@.len()),
            old(self).room(advice_o(kind, input@.len())),
        ensures
            final(self).wf(),
            final(self).extends(old(self)),
            final(self).grew(old(self), advice_o(kind, input@.len())),
            final(self).cs.all_constraints() == old(self).cs.all_constraints(),
            final(self).cs.linear() == old(self).cs.linear(),
            final(self).cs.groups() == old(self).cs.groups(),
            final(self).cs.wspec().num_exts == old(self).cs.wspec().num_exts,
            r@.len() == advice_o(kind, input@.len()),
            final(self).fresh(old(self), r@, round as nat, Visibility::Private),
            r@ == var_range(Visibility::Private, round, old(self).cs.wspec().round_specs@[round as int].privs as nat, r@.len()),
            final(self).cs.wspec().round_specs@ == old(self).cs.wspec().round_specs@.update(
                round as int,
                RoundWitnessSpec {
                    pubs: old(self).cs.wspec().round_specs@[round as int].pubs,
                    privs: (old(self).cs.wspec().round_specs@[round as int].privs + r@.len()) as usize,
                },
            ),
            pushed(final(self).ops_view(), old(self).ops_view(), round as int),
            is_advice(final(self).ops_view()[round as int].last(), input@, r@, kind),
    {
        let ghost before = *self;
        let o = advice_outputs(&kind, input.len());
        let output = self.cs.alloc_in_round(round, Visibility::Private, o);
        proof {
            lemma_alloc(before.cs.wspec(), self.cs.wspec(), round, Visibility::Private, o as nat, output@);
        }
        let op = Operation::Advice { input, output: copy_vars(output.as_slice()), kind };
        self.push_op(round, op, Ghost(before));
        proof {
            self.lemma_pushed_extends(&before, round as int, op);
            assert forall|r: int| 0 <= r < self.rounds() implies (#[trigger] self.cs.wspec().round_specs@[r]).pubs
                <= before.cs.wspec().round_specs@[r].pubs + o && self.cs.wspec().round_specs@[r].privs
                <= before.cs.wspec().round_specs@[r].privs + o by {}
        }
        output
    }

    /// Adds an advice in `round` on external values; its outputs are new
    /// public variables of the round.
    pub fn advice_pub(&mut self, round: usize, kind: AdviceKind, aux: Vec<ExternalValue>) -> (r: Vec<Variable>)
        requires
            old(self).wf(),
            round < old(self).rounds(),
            exts_below(aux@, old(self).cs.wspec().num_exts as nat),
            advice_wf(kind),
            advice_arity(kind, aux@.len()),
            old(self).room(advice_o(kind, aux@.len())),
        ensures
            final(self).wf(),
            final(self).extends(old(self)),
            final(self).grew(old(self), advice_o(kind, aux@.len())),
            final(self).cs.all_constraints() == old(self).cs.all_constraints(),
            final(self).cs.linear() == old(self).cs.linear(),
            final(self).cs.groups() == old(self).cs.groups(),
            final(self).cs.wspec().num_exts == old(self).cs.wspec().num_exts,
            r@.len() == advice_o(kind, aux@.len()),
            final(self).fresh(old(self), r@, round as nat, Visibility::Public),
            r@ == var_range(Visibility::Public, round, old(self).cs.wspec().round_specs@[round as int].pubs as nat, r@.len()),
            final(self).cs.wspec().round_specs@ == old(self).cs.wspec().round_specs@.update(
                round as int,
                RoundWitnessSpec {
                    pubs: (old(self).cs.wspec().round_specs@[round as int].pubs + r@.len()) as usize,
                    privs: old(self).cs.wspec().round_specs@[round as int].privs,
                },
            ),
            pushed(final(self).ops_view(), old(self).ops_view(), round as int),
            is_advice_pub(final(self).ops_view()[round as int].last(), aux@, r@, kind),
    {
        let ghost before = *self;
        let o = advice_outputs(&kind, aux.len());
        let output = self.cs.alloc_in_round(round, Visibility::Public, o);
        proof {
            lemma_alloc(before.cs.wspec(), self.cs.wspec(), round, Visibility::Public, o as nat, output@);
        }
        let op = Operation::AdvicePub { aux, output: copy_vars(output.as_slice()), kind };
        self.push_op(round, op, Ghost(before));
        proof {
            self.lemma_pushed_extends(&before, round as int, op);
            assert forall|r: int| 0 <= r < self.rounds() implies (#[trigger] self.cs.wspec().round_specs@[r]).pubs
                <= before.cs.wspec().round_specs@[r].pubs + o && self.cs.wspec().round_specs@[r].privs
                <= before.cs.wspec().round_specs@[r].privs + o by {}
        }
        output
    }

    /// After recording an operation that wrote fresh variables, the circuit
    /// extends the one before.
    proof fn lemma_pushed_extends(&self, before: &Self, round: int, op: Operation)
        requires
            0 <= round < before.ops_view().len(),
            self.ops_view() == before.ops_view().update(round, before.ops_view()[round].push(op)),
            self.cs.wspec().round_specs@.len() == before.cs.wspec().round_specs@.len(),
            forall|v: Variable| before.has_var(v) ==> #[trigger] self.has_var(v),
            self.cs.all_constraints() == before.cs.all_constraints(),
            self.cs.wspec().num_exts == before.cs.wspec().num_exts,
            self.max_degree == before.max_degree,
        ensures
            self.extends(before),
            pushed(self.ops_view(), before.ops_view(), round),
            self.ops_view()[round].last() == op,
    {
        assert(self.ops_view()[round].drop_last() =~= before.ops_view()[round]);
        assert forall|k: int| 0 <= k < before.cs.all_constraints().len() implies #[trigger] self.cs.all_constraints().contains(
            before.cs.all_constraints()[k],
        ) by {
            assert(self.cs.all_constraints()[k] == before.cs.all_constraints()[k]);
        }
        assert forall|r: int, j: int|
            0 <= r < before.ops_view().len() && 0 <= j < before.ops_view()[r].len() implies (
            #[trigger] self.ops_view()[r][j]) == before.ops_view()[r][j] by {
            if r == round {
                assert(self.ops_view()[r][j] == before.ops_view()[r].push(op)[j]);
            }
        }
    }
}

impl Circuit {
    /// Adds a constraint: its gate must have positive degree and take the
    /// variables given, which must exist.
    pub fn constrain(&mut self, input: &[Variable], gate: LibGate)
        requires
            old(self).wf(),
            gate.spec_d() >= 1,
            gate.spec_i() == input@.len(),
            forall|a: int| 0 <= a < input@.len() ==> old(self).has_var(#[trigger] input@[a]),
            old(self).rhs_room(gate.spec_o()),
        ensures
            final(self).wf(),
            final(self).extends(old(self)),
            final(self).grew(old(self), gate.spec_o()),
            final(self).ops_view() == old(self).ops_view(),
            final(self).cs.wspec() == old(self).cs.wspec(),
            added_one(final(self).cs.all_constraints(), old(self).cs.all_constraints(), gate, input@),
            has_gate(final(self).cs.all_constraints(), gate.kind(), input@),
    {
        let ghost before = *self;
        let ghost g = gate;
        let d = gate.d();
        let kind = if d == 1 {
            CommitKind::Zero
        } else {
            CommitKind::Group
        };
        self.cs.constrain(kind, input, gate);
        proof {
            let all = self.cs.all_constraints();
            let all0 = before.cs.all_constraints();
            assert forall|k: int, a: int| 0 <= k < all.len() && 0 <= a < all[k].inputs@.len() implies allocated(
                self.cs.wspec(),
                #[trigger] all[k].inputs@[a],
            ) by {
                if all0.contains(all[k]) {
                    let i = choose|i: int| 0 <= i < all0.len() && all0[i] == all[k];
                    assert(allocated(before.cs.wspec(), all0[i].inputs@[a]));
                } else {
                    assert(all[k].inputs@ == input@);
                    assert(before.has_var(input@[a]));
                }
            }
            assert forall|k: int| 0 <= k < all.len() implies (#[trigger] all[k]).inputs@.len() == all[k].gate.spec_i() by {
                if all0.contains(all[k]) {
                    let i = choose|i: int| 0 <= i < all0.len() && all0[i] == all[k];
                    assert(all0[i].inputs@.len() == all0[i].gate.spec_i());
                }
            }
            assert(self.wf());
            let k = choose|k: int| 0 <= k < all.len() && (#[trigger] all[k]).gate == g && all[k].inputs@ == input@;
            assert(all[k].gate.kind() == g.kind());
            assert forall|r: int| 0 <= r < self.rounds() implies (#[trigger] self.cs.wspec().round_specs@[r]).pubs
                <= before.cs.wspec().round_specs@[r].pubs + g.spec_o() && self.cs.wspec().round_specs@[r].privs
                <= before.cs.wspec().round_specs@[r].privs + g.spec_o() by {}
        }
    }

    /// Adds a polynomial operation in `round`: its outputs are new variables
    /// of the given visibility, and a gate `poly(input) - output` is
    /// constrained on them.
    fn apply_internal(&mut self, vis: Visibility, round: usize, poly: PolyKind, input: Vec<Variable>) -> (r: Vec<Variable>)
        requires
            old(self).wf(),
            round < old(self).rounds(),
            forall|a: int| 0 <= a < input@.len() ==> old(self).has_var(#[trigger] input@[a]) && input@[a].round <= round,
            poly_wf(poly),
            poly_i(poly) + poly_o(poly) <= usize::MAX,
            0 < poly_d(poly) <= old(self).max_deg(),
            input@.len() == poly_i(poly),
            old(self).room(poly_o(poly)),
        ensures
            final(self).wf(),
            final(self).extends(old(self)),
            final(self).grew(old(self), poly_o(poly)),
            final(self).cs.wspec().num_exts == old(self).cs.wspec().num_exts,
            r@.len() == poly_o(poly),
            final(self).fresh(old(self), r@, round as nat, vis),
            vis == Visibility::Public ==> r@ == var_range(vis, round, old(self).cs.wspec().round_specs@[round as int].pubs as nat, r@.len()),
            vis == Visibility::Private ==> r@ == var_range(vis, round, old(self).cs.wspec().round_specs@[round as int].privs as nat, r@.len()),
            pushed(final(self).ops_view(), old(self).ops_view(), round as int),
            is_poly(final(self).ops_view()[round as int].last(), input@, r@, poly),
            final(self).cs.all_constraints().len() == old(self).cs.all_constraints().len() + 1,
            has_gate(final(self).cs.all_constraints(), GateKind::Applied { poly }, input@ + r@),
    {
        let ghost before = *self;
        let gate = LibGate::new(GateKind::Applied { poly: poly.duplicate() });
        let o = gate.o();
        let output = self.cs.alloc_in_round(round, vis, o);
        proof {
            lemma_alloc(before.cs.wspec(), self.cs.wspec(), round, vis, o as nat, output@);
        }
        let mut gate_io = copy_vars(input.as_slice());
        let mut a: usize = 0;
        while a < output.len()
            invariant
                a <= output@.len(),
                gate_io@ == input@ + output@.take(a as int),
            decreases output@.len() - a,
        {
            gate_io.push(output[a]);
            a = a + 1;
            proof {
                assert(gate_io@ =~= input@ + output@.take(a as int));
            }
        }
        proof {
            assert(output@.take(output@.len() as int) =~= output@);
        }
        let op = Operation::Poly { input, output: copy_vars(output.as_slice()), poly };
        self.push_op(round, op, Ghost(before));
        proof {
            self.lemma_pushed_extends(&before, round as int, op);
        }
        let ghost mid = *self;
        proof {
            assert forall|b: int| 0 <= b < gate_io@.len() implies mid.has_var(#[trigger] gate_io@[b]) by {
                if b < input@.len() {
                    assert(gate_io@[b] == input@[b]);
                } else {
                    assert(gate_io@[b] == output@[b - input@.len()]);
                }
            }
        }
        self.constrain(gate_io.as_slice(), gate);
        proof {
            lemma_extends_trans(&before, &mid, self);
            assert forall|r: int| 0 <= r < self.rounds() implies (#[trigger] self.cs.wspec().round_specs@[r]).pubs
                <= before.cs.wspec().round_specs@[r].pubs + o && self.cs.wspec().round_specs@[r].privs
                <= before.cs.wspec().round_specs@[r].privs + o by {}
        }
        output
    }

    /// Applies a polynomial map in `round`, to new private variables.
    pub fn apply(&mut self, round: usize, poly: PolyKind, input: Vec<Variable>) -> (r: Vec<Variable>)
        requires
            old(self).wf(),
            round < old(self).rounds(),
            forall|a: int| 0 <= a < input@.len() ==> old(self).has_var(#[trigger] input@[a]) && input@[a].round <= round,
            poly_wf(poly),
            poly_i(poly) + poly_o(poly) <= usize::MAX,
            0 < poly_d(poly) <= old(self).max_deg(),
            input@.len() == poly_i(poly),
            old(self).room(poly_o(poly)),
        ensures
            final(self).wf(),
            final(self).extends(old(self)),
            final(self).grew(old(self), poly_o(poly)),
            final(self).cs.wspec().num_exts == old(self).cs.wspec().num_exts,
            r@.len() == poly_o(poly),
            final(self).fresh(old(self), r@, round as nat, Visibility::Private),
            r@ == var_range(Visibility::Private, round, old(self).cs.wspec().round_specs@[round as int].privs as nat, r@.len()),
            pushed(final(self).ops_view(), old(self).ops_view(), round as int),
            is_poly(final(self).ops_view()[round as int].last(), input@, r@, poly),
            final(self).cs.all_constraints().len() == old(self).cs.all_constraints().len() + 1,
            has_gate(final(self).cs.all_constraints(), GateKind::Applied { poly }, input@ + r@),
    {
        self.apply_internal(Visibility::Private, round, poly, input)
    }

    /// Applies a polynomial map in `round`, to new public variables.
    pub fn apply_pub(&mut self, round: usize, poly: PolyKind, input: Vec<Variable>) -> (r: Vec<Variable>)
        requires
            old(self).wf(),
            round < old(self).rounds(),
            forall|a: int| 0 <= a < input@.len() ==> old(self).has_var(#[trigger] input@[a]) && input@[a].round <= round,
            poly_wf(poly),
            poly_i(poly) + poly_o(poly) <= usize::MAX,
            0 < poly_d(poly) <= old(self).max_deg(),
            input@.len() == poly_i(poly),
            old(self).room(poly_o(poly)),
        ensures
            final(self).wf(),
            final(self).extends(old(self)),
            final(self).grew(old(self), poly_o(poly)),
            final(self).cs.wspec().num_exts == old(self).cs.wspec().num_exts,
            r@.len() == poly_o(poly),
            final(self).fresh(old(self), r@, round as nat, Visibility::Public),
            r@ == var_range(Visibility::Public, round, old(self).cs.wspec().round_specs@[round as int].pubs as nat, r@.len()),
            pushed(final(self).ops_view(), old(self).ops_view(), round as int),
            is_poly(final(self).ops_view()[round as int].last(), input@, r@, poly),
            final(self).cs.all_constraints().len() == old(self).cs.all_constraints().len() + 1,
            has_gate(final(self).cs.all_constraints(), GateKind::Applied { poly }, input@ + r@),
    {
        self.apply_internal(Visibility::Public, round, poly, input)
    }

    /// Registers `size` new external values.
    pub fn ext_val(&mut self, size: usize) -> (r: Vec<ExternalValue>)
        requires
            old(self).wf(),
            old(self).room(size as nat),
        ensures
            final(self).wf(),
            final(self).extends(old(self)),
            final(self).grew(old(self), size as nat),
            final(self).ops_view() == old(self).ops_view(),
            final(self).cs.all_constraints() == old(self).cs.all_constraints(),
            final(self).cs.linear() == old(self).cs.linear(),
            final(self).cs.groups() == old(self).cs.groups(),
            final(self).cs.wspec().round_specs == old(self).cs.wspec().round_specs,
            final(self).cs.wspec().num_exts == old(self).cs.wspec().num_exts + size,
            r@.len() == size,
            forall|k: int| 0 <= k < size ==> #[trigger] r@[k].addr == old(self).cs.wspec().num_exts + k,
    {
        let ghost before = *self;
        let r = self.cs.extval(size);
        proof {
            let ws = self.cs.wspec();
            assert forall|v: Variable| #![trigger self.owner@.dom().contains(v)] #![trigger allocated(ws, v)]
                self.owner@.dom().contains(v) <==> allocated(ws, v) by {
                assert(self.owner@.dom().contains(v) <==> allocated(before.cs.wspec(), v));
            }
            assert forall|rr: int, j: int| 0 <= rr < self.ops@.len() && 0 <= j < self.ops@[rr]@.len() implies op_wf(
                #[trigger] self.ops@[rr]@[j],
                rr as nat,
                j,
                self.owner@,
                ws,
            ) by {
                assert(op_wf(self.ops@[rr]@[j], rr as nat, j, self.owner@, before.cs.wspec()));
                let op = self.ops@[rr]@[j];
                if let Operation::AdvicePub { aux, .. } = op {
                    assert(exts_below(aux@, before.cs.wspec().num_exts as nat));
                    assert forall|a: int| 0 <= a < aux@.len() implies (#[trigger] aux@[a]).addr < ws.num_exts by {
                        assert(aux@[a].addr < before.cs.wspec().num_exts);
                    }
                }
            }
            assert forall|k: int, a: int|
                0 <= k < self.cs.all_constraints().len() && 0 <= a < self.cs.all_constraints()[k].inputs@.len()
                    implies allocated(ws, #[trigger] self.cs.all_constraints()[k].inputs@[a]) by {
                assert(allocated(before.cs.wspec(), self.cs.all_constraints()[k].inputs@[a]));
            }
            assert(self.wf());
            assert forall|k: int| 0 <= k < before.cs.all_constraints().len() implies #[trigger] self.cs.all_constraints().contains(
                before.cs.all_constraints()[k],
            ) by {
                assert(self.cs.all_constraints()[k] == before.cs.all_constraints()[k]);
            }
        }
        r
    }
}

/// The values of the external values.
pub open spec fn ext_values(w: CSWtns, aux: Seq<ExternalValue>) -> Seq<Fe> {
    Seq::new(aux.len(), |i: int| w.ext_vals@[aux[i].addr as int].unwrap())
}

/// The external values are assigned.
pub open spec fn exts_set(w: CSWtns, aux: Seq<ExternalValue>) -> bool {
    forall|i: int| 0 <= i < aux.len() ==> (#[trigger] aux[i]).addr < w.ext_vals@.len() && w.ext_vals@[aux[i].addr as int] is Some
}

/// The operation has been carried out on the witness: its outputs hold
/// what it computes of its inputs.
pub open spec fn op_holds(op: Operation, w: CSWtns) -> bool {
    match op {
        Operation::AdvicePub { aux, output, kind } => exts_set(w, aux@) && advice_ok(kind, ext_values(w, aux@))
            && advice_out(kind, ext_values(w, aux@)) == vals(assigned_vals(w, output@)),
        Operation::Advice { input, output, kind } => advice_ok(kind, assigned_vals(w, input@)) && advice_out(
            kind,
            assigned_vals(w, input@),
        ) == vals(assigned_vals(w, output@)),
        Operation::Poly { input, output, poly } => poly_out(poly, assigned_vals(w, input@)) == vals(
            assigned_vals(w, output@),
        ),
    }
}

/// The operation cannot be carried out on the witness: its advice fails
/// on the inputs, or reads an unassigned external value.
pub open spec fn op_fails(op: Operation, w: CSWtns) -> bool {
    match op {
        Operation::AdvicePub { aux, kind, .. } => !exts_set(w, aux@) || !advice_ok(kind, ext_values(w, aux@)),
        Operation::Advice { input, kind, .. } => !advice_ok(kind, assigned_vals(w, input@)),
        Operation::Poly { .. } => false,
    }
}

/// Every variable of the list is assigned.
pub open spec fn all_set(w: CSWtns, vars: Seq<Variable>) -> bool {
    forall|a: int| 0 <= a < vars.len() ==> w.is_set(#[trigger] vars[a])
}

/// The witness of a run of `c` that has carried out every operation of the
/// rounds before `rc`, and the first `j` of round `rc`.
pub open spec fn run_state(c: Circuit, w: CSWtns, rc: nat, j: int) -> bool {
    let ws = c.cs.wspec();
    &&& c.wf()
    &&& rc <= c.rounds()
    &&& rc < c.rounds() ==> 0 <= j <= c.ops_view()[rc as int].len()
    &&& rc == c.rounds() ==> j == 0
    &&& w.wtns@.len() == c.rounds()
    &&& w.ext_vals@.len() == ws.num_exts
    &&& forall|v: Variable| #[trigger] w.slot(v) is Some <==> allocated(ws, v)
    &&& forall|v: Variable|
        allocated(ws, v) ==> (#[trigger] w.is_set(v) <==> (v.round < rc || (v.round == rc && c.owner@[v] < j)))
    &&& forall|r: int, k: int| 0 <= r < rc && 0 <= k < c.ops_view()[r].len() ==> op_holds(#[trigger] c.ops_view()[r][k], w)
    &&& forall|k: int| 0 <= k < j ==> op_holds(#[trigger] c.ops_view()[rc as int][k], w)
}

/// A circuit whose construction has ended, with the allocator of its runs.
pub struct ConstructedCircuit {
    pub circuit: Circuit,
    pub run_allocator: RunAllocator,
}

impl Circuit {
    /// Ends the construction.
    pub fn finalize(self) -> (r: ConstructedCircuit)
        ensures
            r.circuit == self,
            r.run_allocator.wf(),
            r.run_allocator.active() == 0,
            r.run_allocator.total_spawned() == 0,
    {
        ConstructedCircuit { circuit: self, run_allocator: RunAllocator::new() }
    }
}

/// A run of a constructed circuit: its witness, the next round to execute,
/// and its index.
pub struct CircuitRun {
    pub cs: CSWtns,
    pub round_counter: usize,
    pub run_idx: RunIndex,
}

/// Pairs each variable with its value.
fn zip_assign(vars: &[Variable], values: &[Fe]) -> (r: Vec<(Variable, Fe)>)
    requires
        vars@.len() == values@.len(),
    ensures
        r@.len() == vars@.len(),
        forall|k: int| 0 <= k < r@.len() ==> #[trigger] r@[k] == (vars@[k], values@[k]),
{
    let mut out: Vec<(Variable, Fe)> = Vec::new();
    let mut k: usize = 0;
    while k < vars.len()
        invariant
            k <= vars@.len(),
            vars@.len() == values@.len(),
            out@.len() == k,
            forall|i: int| 0 <= i < k ==> #[trigger] out@[i] == (vars@[i], values@[i]),
        decreases vars@.len() - k,
    {
        out.push((vars[k], values[k]));
        k = k + 1;
    }
    out
}

/// The values of assigned external values, or `None` when one is unassigned.
fn read_exts(w: &CSWtns, aux: &[ExternalValue]) -> (r: Option<Vec<Fe>>)
    requires
        forall|i: int| 0 <= i < aux@.len() ==> (#[trigger] aux@[i]).addr < w.ext_vals@.len(),
    ensures
        r is Some <==> exts_set(*w, aux@),
        r matches Some(v) ==> v@ == ext_values(*w, aux@),
{
    let mut out: Vec<Fe> = Vec::new();
    let mut k: usize = 0;
    while k < aux.len()
        invariant
            k <= aux@.len(),
            forall|i: int| 0 <= i < aux@.len() ==> (#[trigger] aux@[i]).addr < w.ext_vals@.len(),
            out@.len() == k,
            forall|i: int| 0 <= i < k ==> w.ext_vals@[(#[trigger] aux@[i]).addr as int] is Some,
            forall|i: int| 0 <= i < k ==> #[trigger] out@[i] == w.ext_vals@[aux@[i].addr as int].unwrap(),
        decreases aux@.len() - k,
    {
        match w.ext_vals[aux[k].addr] {
            Some(x) => out.push(x),
            None => {
                return None;
            },
        }
        k = k + 1;
    }
    proof {
        assert(out@ =~= ext_values(*w, aux@));
    }
    Some(out)
}

/// Writing fresh variables keeps what held of the assigned ones.
proof fn lemma_frame(c: Circuit, w0: CSWtns, w1: CSWtns, op: Operation)
    requires
        forall|v: Variable| w0.is_set(v) ==> #[trigger] w1.slot(v) == w0.slot(v),
        w1.ext_vals@ == w0.ext_vals@,
        all_set(w0, op_inputs(op)),
        all_set(w0, op_outputs(op)),
        op_holds(op, w0),
    ensures
        op_holds(op, w1),
        all_set(w1, op_inputs(op)),
        all_set(w1, op_outputs(op)),
{
    let i = op_inputs(op);
    let o = op_outputs(op);
    assert(assigned_vals(w1, i) =~= assigned_vals(w0, i)) by {
        assert forall|a: int| 0 <= a < i.len() implies assigned_vals(w1, i)[a] == assigned_vals(w0, i)[a] by {
            assert(w0.is_set(i[a]));
        }
    }
    assert(assigned_vals(w1, o) =~= assigned_vals(w0, o)) by {
        assert forall|a: int| 0 <= a < o.len() implies assigned_vals(w1, o)[a] == assigned_vals(w0, o)[a] by {
            assert(w0.is_set(o[a]));
        }
    }
    assert forall|a: int| 0 <= a < i.len() implies w1.is_set(#[trigger] i[a]) by {
        assert(w0.is_set(i[a]));
    }
    assert forall|a: int| 0 <= a < o.len() implies w1.is_set(#[trigger] o[a]) by {
        assert(w0.is_set(o[a]));
    }
    match op {
        Operation::AdvicePub { aux, .. } => {
            assert(ext_values(w1, aux@) =~= ext_values(w0, aux@));
        },
        _ => {},
    }
}

/// In a run state, the operations carried out have their variables assigned.
proof fn lemma_done_ops_set(c: Circuit, w: CSWtns, rc: nat, j: int, r: int, k: int)
    requires
        run_state(c, w, rc, j),
        0 <= r < c.ops_view().len(),
        0 <= k < c.ops_view()[r].len(),
        r < rc || (r == rc && k < j),
    ensures
        all_set(w, op_inputs(c.ops_view()[r][k])),
        all_set(w, op_outputs(c.ops_view()[r][k])),
{
    let op = c.ops_view()[r][k];
    assert(c.ops_view()[r][k] == c.ops@[r]@[k]);
    assert(op_wf(c.ops@[r]@[k], r as nat, k, c.owner@, c.cs.wspec()));
    let i = op_inputs(op);
    let o = op_outputs(op);
    assert forall|a: int| 0 <= a < i.len() implies w.is_set(#[trigger] i[a]) by {
        assert(c.owner@.dom().contains(i[a]));
        assert(allocated(c.cs.wspec(), i[a]));
    }
    assert forall|a: int| 0 <= a < o.len() implies w.is_set(#[trigger] o[a]) by {
        assert(c.owner@.dom().contains(o[a]));
        assert(allocated(c.cs.wspec(), o[a]));
    }
}

impl CircuitRun {
    /// The run is a valid state of `c`, between rounds.
    pub open spec fn inv(&self, c: &ConstructedCircuit) -> bool {
        run_state(c.circuit, self.cs, self.round_counter as nat, 0)
    }

    /// Carries out operation `j` of round `r`: `false`, with nothing written,
    /// when it fails.
    fn exec_op(&mut self, c: &Circuit, r: usize, j: usize) -> (ok: bool)
        requires
            run_state(*c, old(self).cs, r as nat, j as int),
            r < c.rounds(),
            j < c.ops_view()[r as int].len(),
        ensures
            ok ==> run_state(*c, final(self).cs, r as nat, j + 1),
            !ok ==> final(self).cs == old(self).cs && op_fails(c.ops_view()[r as int][j as int], old(self).cs),
            final(self).cs.ext_vals@ == old(self).cs.ext_vals@,
            final(self).round_counter == old(self).round_counter,
            final(self).run_idx == old(self).run_idx,
    {
        let ghost w0 = self.cs;
        let op = &c.ops[r][j];
        proof {
            assert(c.ops_view()[r as int][j as int] == *op);
            assert(op_wf(*op, r as nat, j as int, c.owner@, c.cs.wspec()));
            let i = op_inputs(*op);
            assert forall|a: int| 0 <= a < i.len() implies w0.is_set(#[trigger] i[a]) by {
                assert(c.owner@.dom().contains(i[a]));
                assert(allocated(c.cs.wspec(), i[a]));
            }
            let o = op_outputs(*op);
            assert(outputs_owned(o, r as nat, j as int, c.owner@));
            assert forall|a: int| 0 <= a < o.len() implies w0.slot(#[trigger] o[a]) == Some(None::<Fe>) by {
                assert(c.owner@.dom().contains(o[a]));
                assert(allocated(c.cs.wspec(), o[a]));
                assert(w0.slot(o[a]) is Some);
                assert(o[a].round == r && c.owner@[o[a]] == j);
                assert(!w0.is_set(o[a]));
            }
        }
        let (output, values): (&Vec<Variable>, Vec<Fe>) = match op {
            Operation::AdvicePub { aux, output, kind } => {
                proof {
                    assert forall|i: int| 0 <= i < aux@.len() implies (#[trigger] aux@[i]).addr < w0.ext_vals@.len() by {
                        assert(exts_below(aux@, c.cs.wspec().num_exts as nat));
                    }
                }
                let x = match read_exts(&self.cs, aux.as_slice()) {
                    Some(x) => x,
                    None => {
                        return false;
                    },
                };
                match compute_advice(kind, x.as_slice()) {
                    Some(v) => (output, v),
                    None => {
                        return false;
                    },
                }
            },
            Operation::Advice { input, output, kind } => {
                let x = self.cs.get_vars(input.as_slice());
                proof {
                    assert(x@ =~= assigned_vals(w0, input@));
                }
                match compute_advice(kind, x.as_slice()) {
                    Some(v) => (output, v),
                    None => {
                        return false;
                    },
                }
            },
            Operation::Poly { input, output, poly } => {
                let x = self.cs.get_vars(input.as_slice());
                proof {
                    assert(x@ =~= assigned_vals(w0, input@));
                }
                (output, apply_poly(poly, x.as_slice()))
            },
        };
        let assignments = zip_assign(output.as_slice(), values.as_slice());
        proof {
            assert forall|k: int| 0 <= k < assignments@.len() implies old(self).cs.slot((#[trigger] assignments@[k]).0)
                == Some(None::<Fe>) by {
                assert(assignments@[k].0 == op_outputs(*op)[k]);
            }
            assert forall|a: int, b: int| 0 <= a < b < assignments@.len() implies assignments@[a].0
                != assignments@[b].0 by {
                assert(assignments@[a].0 == op_outputs(*op)[a]);
                assert(assignments@[b].0 == op_outputs(*op)[b]);
            }
        }
        self.cs.set_vars(assignments.as_slice());
        proof {
            let w1 = self.cs;
            let ws = c.cs.wspec();
            let o = op_outputs(*op);
            assert forall|v: Variable| w0.is_set(v) implies #[trigger] w1.slot(v) == w0.slot(v) by {
                assert forall|k: int| 0 <= k < assignments@.len() implies (#[trigger] assignments@[k]).0 != v by {
                    assert(assignments@[k].0 == o[k]);
                }
            }
            assert forall|v: Variable| !o.contains(v) implies #[trigger] w1.slot(v) == w0.slot(v) by {
                assert forall|k: int| 0 <= k < assignments@.len() implies (#[trigger] assignments@[k]).0 != v by {
                    assert(assignments@[k].0 == o[k]);
                }
            }
            assert forall|a: int| 0 <= a < o.len() implies #[trigger] w1.slot(o[a]) == Some(Some(values@[a])) by {
                assert(assignments@[a] == (o[a], values@[a]));
            }
            assert forall|v: Variable| #[trigger] w1.slot(v) is Some <==> allocated(ws, v) by {
                if o.contains(v) {
                    let a = choose|a: int| 0 <= a < o.len() && o[a] == v;
                    assert(w1.slot(o[a]) == Some(Some(values@[a])));
                    assert(w0.slot(o[a]) == Some(None::<Fe>));
                } else {
                    assert(w1.slot(v) == w0.slot(v));
                }
            }
            assert forall|v: Variable| allocated(ws, v) implies (#[trigger] w1.is_set(v) <==> (v.round < r || (v.round
                == r && c.owner@[v] < j + 1))) by {
                if o.contains(v) {
                    let a = choose|a: int| 0 <= a < o.len() && o[a] == v;
                    assert(w1.slot(o[a]) == Some(Some(values@[a])));
                    assert(outputs_owned(o, r as nat, j as int, c.owner@));
                    assert(c.owner@[o[a]] == j);
                    assert(o[a].round == r);
                    assert(w1.is_set(v));
                } else {
                    assert(w1.slot(v) == w0.slot(v));
                    assert(w1.is_set(v) == w0.is_set(v));
                    assert(w0.is_set(v) <==> (v.round < r || (v.round == r && c.owner@[v] < j)));
                    assert(c.owner@.dom().contains(v));
                    if v.round == r && c.owner@[v] == j {
                        assert(op_outputs(c.ops@[v.round as int]@[c.owner@[v]]).contains(v));
                        assert(c.ops@[r as int]@[j as int] == *op);
                    }
                }
            }
            assert forall|rr: int, k: int| 0 <= rr < r && 0 <= k < c.ops_view()[rr].len() implies op_holds(
                #[trigger] c.ops_view()[rr][k],
                w1,
            ) by {
                lemma_done_ops_set(*c, w0, r as nat, j as int, rr, k);
                lemma_frame(*c, w0, w1, c.ops_view()[rr][k]);
            }
            assert forall|k: int| 0 <= k < j + 1 implies op_holds(#[trigger] c.ops_view()[r as int][k], w1) by {
                if k < j {
                    lemma_done_ops_set(*c, w0, r as nat, j as int, r as int, k);
                    lemma_frame(*c, w0, w1, c.ops_view()[r as int][k]);
                } else {
                    let i = op_inputs(*op);
                    assert(assigned_vals(w1, i) =~= assigned_vals(w0, i)) by {
                        assert forall|a: int| 0 <= a < i.len() implies assigned_vals(w1, i)[a] == assigned_vals(
                            w0,
                            i,
                        )[a] by {
                            assert(c.owner@.dom().contains(i[a]));
                            assert(allocated(ws, i[a]));
                            assert(w0.is_set(i[a]));
                        }
                    }
                    assert(assigned_vals(w1, o) =~= values@) by {
                        assert forall|a: int| 0 <= a < o.len() implies assigned_vals(w1, o)[a] == values@[a] by {
                            assert(w1.slot(o[a]) == Some(Some(values@[a])));
                        }
                    }
                    match *op {
                        Operation::AdvicePub { aux, .. } => {
                            assert(ext_values(w1, aux@) =~= ext_values(w0, aux@));
                        },
                        _ => {},
                    }
                }
            }
        }
        true
    }
}

/// A round finished: the next one starts.
proof fn lemma_next_round(c: Circuit, w: CSWtns, rc: nat)
    requires
        rc < c.rounds(),
        run_state(c, w, rc, c.ops_view()[rc as int].len() as int),
    ensures
        run_state(c, w, rc + 1, 0),
{
    let ws = c.cs.wspec();
    assert forall|v: Variable| allocated(ws, v) implies (#[trigger] w.is_set(v) <==> (v.round < rc + 1 || (v.round
        == rc + 1 && c.owner@[v] < 0))) by {
        assert(c.owner@.dom().contains(v));
        assert(0 <= c.owner@[v] < c.ops@[v.round as int]@.len());
        assert(c.ops_view()[v.round as int] == c.ops@[v.round as int]@);
    }
    assert forall|r: int, k: int| 0 <= r < rc + 1 && 0 <= k < c.ops_view()[r].len() implies op_holds(
        #[trigger] c.ops_view()[r][k],
        w,
    ) by {
        if r == rc {
            assert(op_holds(c.ops_view()[rc as int][k], w));
        }
    }
}

/// After every round, every allocated variable is assigned.
proof fn lemma_all_set(c: Circuit, w: CSWtns)
    requires
        run_state(c, w, c.rounds(), 0),
    ensures
        fully_assigned(w),
        forall|v: Variable| allocated(c.cs.wspec(), v) ==> #[trigger] w.is_set(v),
{
    assert forall|r: int, i: int| 0 <= r < w.wtns@.len() && 0 <= i < w.wtns@[r].pubs@.len() implies (
    #[trigger] w.wtns@[r].pubs@[i]) is Some by {
        assert(w.wtns@.len() == w.wtns.len());
        assert(w.wtns@[r].pubs@.len() == w.wtns@[r].pubs.len());
        let v = Variable { visibility: Visibility::Public, round: r as usize, index: i as usize };
        assert(w.slot(v) is Some);
        assert(allocated(c.cs.wspec(), v));
        assert(w.is_set(v));
    }
    assert forall|r: int, i: int| 0 <= r < w.wtns@.len() && 0 <= i < w.wtns@[r].privs@.len() implies (
    #[trigger] w.wtns@[r].privs@[i]) is Some by {
        assert(w.wtns@.len() == w.wtns.len());
        assert(w.wtns@[r].privs@.len() == w.wtns@[r].privs.len());
        let v = Variable { visibility: Visibility::Private, round: r as usize, index: i as usize };
        assert(w.slot(v) is Some);
        assert(allocated(c.cs.wspec(), v));
        assert(w.is_set(v));
    }
}

impl ConstructedCircuit {
    /// Starts a run: an empty witness of the circuit's shape, at round 0.
    pub fn spawn(&mut self) -> (r: CircuitRun)
        requires
            old(self).circuit.wf(),
            old(self).run_allocator.total_spawned() < usize::MAX,
            old(self).run_allocator.active() < usize::MAX,
            old(self).run_allocator.allocated() < usize::MAX,
        ensures
            r.inv(final(self)),
            r.round_counter == 0,
            final(self).circuit == old(self).circuit,
            r.run_idx.muid == old(self).run_allocator.total_spawned(),
            final(self).run_allocator.active() == old(self).run_allocator.active() + 1,
            final(self).run_allocator.total_spawned() == old(self).run_allocator.total_spawned() + 1,
            old(self).run_allocator.wf() ==> final(self).run_allocator.wf(),
            forall|i: int| 0 <= i < r.cs.ext_vals@.len() ==> (#[trigger] r.cs.ext_vals@[i]) is None,
    {
        let idx = self.run_allocator.allocate();
        let w = CSWtns::new(&self.circuit.cs);
        proof {
            let c = self.circuit;
            let ws = c.cs.wspec();
            assert forall|v: Variable| #[trigger] w.slot(v) is Some <==> allocated(ws, v) by {
                if v.round < w.wtns@.len() {
                    assert(w.wtns@[v.round as int].pubs@.len() == ws.round_specs@[v.round as int].pubs);
                    assert(w.wtns@[v.round as int].privs@.len() == ws.round_specs@[v.round as int].privs);
                }
            }
            assert forall|v: Variable| allocated(ws, v) implies (#[trigger] w.is_set(v) <==> (v.round < 0 || (v.round
                == 0 && c.owner@[v] < 0))) by {
                assert(!w.is_set(v));
                assert(c.owner@.dom().contains(v));
                assert(0 <= c.owner@[v]);
            }
        }
        CircuitRun { cs: w, round_counter: 0, run_idx: idx }
    }

    /// The folding challenges for `beta`: `beta^(2^i)` for `i < k`, `k` the
    /// least with `2^k` at least the number of nonlinear outputs.
    pub fn perepare_protostar_chellanges(&self, beta: Fe) -> (r: Vec<Fe>)
        requires
            self.circuit.wf(),
            groups_rhs(self.circuit.cs.groups()) <= usize::MAX / 2 + 1,
        ensures
            vstd::arithmetic::power2::pow2(r@.len()) >= groups_rhs(self.circuit.cs.groups()),
            r@.len() == 0 || vstd::arithmetic::power2::pow2((r@.len() - 1) as nat) < groups_rhs(self.circuit.cs.groups()),
            forall|i: int| 0 <= i < r@.len() ==> (#[trigger] r@[i]).val() == crate::field_utils::fpow(
                beta.val(),
                vstd::arithmetic::power2::pow2(i as nat),
            ),
    {
        let m = self.circuit.cs.constr_spec().num_nonlinear_constraints;
        protostar_challenges(m, beta)
    }
}

impl CircuitRun {
    /// Executes the rounds from the current one up to `round`. `false` when
    /// an operation fails: its advice fails on the values of its inputs, or
    /// it reads an unassigned external value; the run then stops there.
    pub fn execute(&mut self, c: &ConstructedCircuit, round: usize) -> (ok: bool)
        requires
            old(self).inv(c),
            old(self).round_counter <= round < c.circuit.rounds(),
        ensures
            ok ==> final(self).inv(c) && final(self).round_counter == round + 1,
            !ok ==> exists|r: int, k: int|
                old(self).round_counter <= r <= round && 0 <= k < c.circuit.ops_view()[r].len() && all_set(
                    final(self).cs,
                    op_inputs(c.circuit.ops_view()[r][k]),
                ) && #[trigger] op_fails(c.circuit.ops_view()[r][k], final(self).cs),
            final(self).cs.ext_vals@ == old(self).cs.ext_vals@,
            final(self).run_idx == old(self).run_idx,
    {
        let ghost start = self.round_counter;
        let nr = c.circuit.cs.num_rounds();
        let mut rc = self.round_counter;
        while rc <= round
            invariant
                start == old(self).round_counter,
                self.round_counter == start,
                nr == c.circuit.rounds(),
                start <= rc <= round + 1,
                round < c.circuit.rounds(),
                run_state(c.circuit, self.cs, rc as nat, 0),
                self.cs.ext_vals@ == old(self).cs.ext_vals@,
                self.run_idx == old(self).run_idx,
            decreases round + 1 - rc,
        {
            let n = c.circuit.ops[rc].len();
            proof {
                assert(c.circuit.ops_view()[rc as int] == c.circuit.ops@[rc as int]@);
            }
            let mut j: usize = 0;
            while j < n
                invariant
                    start == old(self).round_counter,
                    self.round_counter == start,
                    nr == c.circuit.rounds(),
                    start <= rc <= round,
                    round < c.circuit.rounds(),
                    n == c.circuit.ops_view()[rc as int].len(),
                    j <= n,
                    run_state(c.circuit, self.cs, rc as nat, j as int),
                    self.cs.ext_vals@ == old(self).cs.ext_vals@,
                    self.run_idx == old(self).run_idx,
                decreases n - j,
            {
                let ghost w0 = self.cs;
                let ok = self.exec_op(&c.circuit, rc, j);
                if !ok {
                    proof {
                        let op = c.circuit.ops_view()[rc as int][j as int];
                        assert(c.circuit.ops_view()[rc as int][j as int] == c.circuit.ops@[rc as int]@[j as int]);
                        assert(op_wf(c.circuit.ops@[rc as int]@[j as int], rc as nat, j as int, c.circuit.owner@, c.circuit.cs.wspec()));
                        let i = op_inputs(op);
                        assert forall|a: int| 0 <= a < i.len() implies self.cs.is_set(#[trigger] i[a]) by {
                            assert(c.circuit.owner@.dom().contains(i[a]));
                            assert(allocated(c.circuit.cs.wspec(), i[a]));
                        }
                        assert(op_fails(op, self.cs));
                    }
                    return false;
                }
                j = j + 1;
            }
            proof {
                lemma_next_round(c.circuit, self.cs, rc as nat);
            }
            rc = rc + 1;
        }
        self.round_counter = rc;
        true
    }

    /// Assigns an external value; it must exist and be unassigned.
    pub fn set_ext(&mut self, c: &ConstructedCircuit, ext: ExternalValue, value: Fe)
        requires
            old(self).inv(c),
            ext.addr < c.circuit.cs.wspec().num_exts,
            old(self).cs.ext_vals@[ext.addr as int] is None,
        ensures
            final(self).inv(c),
            final(self).cs.ext_vals@ == old(self).cs.ext_vals@.update(ext.addr as int, Some(value)),
            final(self).cs.wtns@ == old(self).cs.wtns@,
            final(self).round_counter == old(self).round_counter,
            final(self).run_idx == old(self).run_idx,
    {
        let ghost w0 = self.cs;
        self.cs.setext(ext, value);
        proof {
            let w1 = self.cs;
            let cc = c.circuit;
            let rc = self.round_counter as nat;
            assert forall|v: Variable| #[trigger] w1.slot(v) == w0.slot(v) by {}
            assert forall|v: Variable| allocated(cc.cs.wspec(), v) implies (#[trigger] w1.is_set(v) <==> (v.round < rc || (
            v.round == rc && cc.owner@[v] < 0))) by {
                assert(w1.slot(v) == w0.slot(v));
                assert(w0.is_set(v) <==> (v.round < rc || (v.round == rc && cc.owner@[v] < 0)));
            }
            assert forall|r: int, k: int| 0 <= r < rc && 0 <= k < cc.ops_view()[r].len() implies op_holds(
                #[trigger] cc.ops_view()[r][k],
                w1,
            ) by {
                let op = cc.ops_view()[r][k];
                assert(op_holds(op, w0));
                match op {
                    Operation::AdvicePub { aux, output, .. } => {
                        assert forall|i: int| 0 <= i < aux@.len() implies (#[trigger] aux@[i]).addr != ext.addr by {
                            assert(w0.ext_vals@[aux@[i].addr as int] is Some);
                        }
                        assert(ext_values(w1, aux@) =~= ext_values(w0, aux@));
                        assert(assigned_vals(w1, output@) =~= assigned_vals(w0, output@));
                    },
                    Operation::Advice { input, output, .. } => {
                        assert(assigned_vals(w1, input@) =~= assigned_vals(w0, input@));
                        assert(assigned_vals(w1, output@) =~= assigned_vals(w0, output@));
                    },
                    Operation::Poly { input, output, .. } => {
                        assert(assigned_vals(w1, input@) =~= assigned_vals(w0, input@));
                        assert(assigned_vals(w1, output@) =~= assigned_vals(w0, output@));
                    },
                }
            }
        }
    }

    /// Whether every constraint holds on the witness; every round must have
    /// been executed.
    pub fn valid_witness(&self, c: &ConstructedCircuit) -> (b: bool)
        requires
            self.inv(c),
            self.round_counter == c.circuit.rounds(),
        ensures
            b == forall|k: int| 0 <= k < c.circuit.cs.all_constraints().len() ==> #[trigger] constraint_holds(
                c.circuit.cs.all_constraints()[k],
                self.cs,
            ),
    {
        proof {
            lemma_all_set(c.circuit, self.cs);
            let all = c.circuit.cs.all_constraints();
            assert forall|k: int, j: int| 0 <= k < all.len() && 0 <= j < all[k].inputs@.len() implies self.cs.is_set(
                #[trigger] all[k].inputs@[j],
            ) by {
                assert(allocated(c.circuit.cs.wspec(), all[k].inputs@[j]));
            }
        }
        witness_satisfies(&c.circuit.cs, &self.cs)
    }

    /// The relaxed witness of a finished run: its values, the challenges for
    /// `beta`, and error zero.
    pub fn end(&self, c: &ConstructedCircuit, beta: Fe) -> (r: ProtostarWtns)
        requires
            self.inv(c),
            self.round_counter == c.circuit.rounds(),
            groups_rhs(c.circuit.cs.groups()) <= usize::MAX / 2 + 1,
        ensures
            r.lhs.round_wtns@.len() == self.cs.wtns@.len(),
            r.lhs.pubs@.len() == self.cs.wtns@.len(),
            forall|k: int| 0 <= k < self.cs.wtns@.len() ==> (#[trigger] r.lhs.round_wtns@[k])@.len() == self.cs.wtns@[k].privs@.len()
                && r.lhs.pubs@[k]@.len() == self.cs.wtns@[k].pubs@.len(),
            forall|k: int, i: int| 0 <= k < self.cs.wtns@.len() && 0 <= i < self.cs.wtns@[k].privs@.len() ==> self.cs.wtns@[k].privs@[i]
                == Some(#[trigger] r.lhs.round_wtns@[k]@[i]),
            forall|k: int, i: int| 0 <= k < self.cs.wtns@.len() && 0 <= i < self.cs.wtns@[k].pubs@.len() ==> self.cs.wtns@[k].pubs@[i]
                == Some(#[trigger] r.lhs.pubs@[k]@[i]),
            vstd::arithmetic::power2::pow2(r.lhs.protostar_challenges@.len()) >= groups_rhs(c.circuit.cs.groups()),
            r.lhs.protostar_challenges@.len() == 0 || vstd::arithmetic::power2::pow2(
                (r.lhs.protostar_challenges@.len() - 1) as nat,
            ) < groups_rhs(c.circuit.cs.groups()),
            forall|i: int| 0 <= i < r.lhs.protostar_challenges@.len() ==> (#[trigger] r.lhs.protostar_challenges@[i]).val()
                == crate::field_utils::fpow(beta.val(), vstd::arithmetic::power2::pow2(i as nat)),
            r.error.val() == 0,
    {
        let ch = c.perepare_protostar_chellanges(beta);
        proof {
            lemma_all_set(c.circuit, self.cs);
        }
        protostar_witness(&self.cs, ch)
    }

    /// Ends the run: its index is freed, and its witness handed back.
    pub fn finish(self, c: &mut ConstructedCircuit) -> (r: CSWtns)
        requires
            old(c).run_allocator.active() > 0,
        ensures
            r == self.cs,
            final(c).circuit == old(c).circuit,
            final(c).run_allocator.free_slots() == old(c).run_allocator.free_slots().push(self.run_idx.slot),
            final(c).run_allocator.active() == old(c).run_allocator.active() - 1,
    {
        c.run_allocator.deallocate(self.run_idx);
        self.cs
    }
}

/// A gate recorded stays recorded.
pub proof fn lemma_gate_kept(before: &Circuit, after: &Circuit, kind: GateKind, inputs: Seq<Variable>)
    requires
        after.extends(before),
        has_gate(before.cs.all_constraints(), kind, inputs),
    ensures
        has_gate(after.cs.all_constraints(), kind, inputs),
{
    let b = before.cs.all_constraints();
    let a = after.cs.all_constraints();
    let k = choose|k: int| 0 <= k < b.len() && (#[trigger] b[k]).gate.kind() == kind && b[k].inputs@ == inputs;
    assert(a.contains(b[k]));
    let i = choose|i: int| 0 <= i < a.len() && a[i] == b[k];
    assert(a[i].gate.kind() == kind);
}

/// A circuit extends itself.
pub proof fn lemma_extends_refl(c: &Circuit)
    ensures
        c.extends(c),
        c.grew(c, 0),
{
    assert forall|k: int| 0 <= k < c.cs.all_constraints().len() implies #[trigger] c.cs.all_constraints().contains(
        c.cs.all_constraints()[k],
    ) by {}
}

/// After using `used` of a budget `total`, what is left is room.
pub proof fn lemma_room_left(start: &Circuit, now: &Circuit, used: nat, total: nat)
    requires
        start.room(total),
        now.grew(start, used),
        now.rounds() == start.rounds(),
        used <= total,
    ensures
        now.room((total - used) as nat),
{
    lemma_room_step(start, now, used, (total - used) as nat);
}

impl Circuit {
    /// `self` is `before` with at most `m` added to each counter, and still
    /// well formed.
    pub open spec fn grown(&self, before: &Self, m: nat) -> bool {
        &&& self.wf()
        &&& self.extends(before)
        &&& self.grew(before, m)
    }
}

/// Growth composes.
pub proof fn lemma_grown_trans(a: &Circuit, b: &Circuit, c: &Circuit, m1: nat, m2: nat)
    requires
        b.grown(a, m1),
        c.grown(b, m2),
    ensures
        c.grown(a, m1 + m2),
{
    lemma_extends_trans(a, b, c);
    lemma_grew_trans(a, b, c, m1, m2);
}

/// Growth within a smaller bound is growth within a larger one.
pub proof fn lemma_grown_mono(a: &Circuit, b: &Circuit, m1: nat, m2: nat)
    requires
        b.grown(a, m1),
        m1 <= m2,
    ensures
        b.grown(a, m2),
{
    assert forall|r: int| 0 <= r < b.rounds() implies (#[trigger] b.cs.wspec().round_specs@[r]).pubs
        <= a.cs.wspec().round_specs@[r].pubs + m2 && b.cs.wspec().round_specs@[r].privs
        <= a.cs.wspec().round_specs@[r].privs + m2 by {
        assert(b.cs.wspec().round_specs@[r].pubs <= a.cs.wspec().round_specs@[r].pubs + m1);
    }
}

/// Fresh variables stay fresh, relative to the same start, as the circuit
/// grows.
pub proof fn lemma_fresh_kept(start: &Circuit, mid: &Circuit, fin: &Circuit, out: Seq<Variable>, round: nat, vis: Visibility)
    requires
        mid.fresh(start, out, round, vis),
        fin.extends(mid),
    ensures
        fin.fresh(start, out, round, vis),
{
    assert forall|a: int| 0 <= a < out.len() implies #[trigger] fin.has_var(out[a]) && !start.has_var(out[a]) by {
        assert(mid.has_var(out[a]));
    }
}

/// Pushed operations stay as they are when only constraints are added.
pub proof fn lemma_pushed_kept(before: Seq<Seq<Operation>>, mid: Seq<Seq<Operation>>, fin: Seq<Seq<Operation>>, round: int)
    requires
        pushed(mid, before, round),
        fin == mid,
    ensures
        pushed(fin, before, round),
{
}

/// The constraints hold a gate whose kind satisfies `p`, on `inputs`.
pub open spec fn has_gate_with(
    cs: Seq<crate::constraint_system::Constraint<LibGate>>,
    p: spec_fn(GateKind) -> bool,
    inputs: Seq<Variable>,
) -> bool {
    exists|k: int| 0 <= k < cs.len() && p((#[trigger] cs[k]).gate.kind()) && cs[k].inputs@ == inputs
}

/// A recorded gate of a kind satisfying `p`.
pub proof fn lemma_gate_with(cs: Seq<crate::constraint_system::Constraint<LibGate>>, kind: GateKind, p: spec_fn(GateKind) -> bool, inputs: Seq<Variable>)
    requires
        has_gate(cs, kind, inputs),
        p(kind),
    ensures
        has_gate_with(cs, p, inputs),
{
    let k = choose|k: int| 0 <= k < cs.len() && (#[trigger] cs[k]).gate.kind() == kind && cs[k].inputs@ == inputs;
    assert(p(cs[k].gate.kind()));
}

/// Completeness of applied polynomials: a polynomial operation of `c` that a
/// run has carried out satisfies a gate `poly(input) - output` that
/// `apply` constrained it with; every value of that gate on the witness is
/// zero.
pub proof fn law_applied_gate_holds(c: Circuit, w: CSWtns, rc: nat, r: int, k: int)
    requires
        run_state(c, w, rc, 0),
        0 <= r < rc,
        0 <= k < c.ops_view()[r].len(),
        c.ops_view()[r][k] is Poly,
    ensures
        ({
            let op = c.ops_view()[r][k];
            let x = assigned_vals(w, op_inputs(op) + op_outputs(op));
            forall|j: int| 0 <= j < kind_out(GateKind::Applied { poly: op->poly }, x).len() ==> #[trigger] kind_out(
                GateKind::Applied { poly: op->poly },
                x,
            )[j] == 0
        }),
{
    let op = c.ops_view()[r][k];
    assert(op_holds(op, w));
    assert(c.ops_view()[r][k] == c.ops@[r]@[k]);
    assert(op_wf(c.ops@[r]@[k], r as nat, k, c.owner@, c.cs.wspec()));
    let i = op_inputs(op);
    let o = op_outputs(op);
    let p = op->poly;
    let x = assigned_vals(w, i + o);
    let n = poly_i(p);
    assert(i.len() == n);
    assert(x.take(n as int) =~= assigned_vals(w, i));
    assert forall|j: int| 0 <= j < kind_out(GateKind::Applied { poly: p }, x).len() implies #[trigger] kind_out(
        GateKind::Applied { poly: p },
        x,
    )[j] == 0 by {
        assert(x[n + j] == assigned_vals(w, o)[j]);
        assert(poly_out(p, assigned_vals(w, i))[j] == vals(assigned_vals(w, o))[j]);
        assert(vals(assigned_vals(w, o))[j] == x[n + j].val());
    }
}

/// Soundness of applied polynomials: where every constraint of `c` holds on
/// a witness and `c` constrains `y` to be `poly` of `x`, the values of `y`
/// are the residues of `poly` of the values of `x`.
pub proof fn law_applied_gate_sound(c: Circuit, w: CSWtns, poly: PolyKind, x: Seq<Variable>, y: Seq<Variable>)
    requires
        c.wf(),
        forall|i: int| 0 <= i < c.cs.all_constraints().len() ==> #[trigger] constraint_holds(c.cs.all_constraints()[i], w),
        has_gate(c.cs.all_constraints(), GateKind::Applied { poly }, x + y),
        x.len() == poly_i(poly),
    ensures
        y.len() == poly_o(poly),
        forall|j: int| 0 <= j < y.len() ==> #[trigger] assigned_vals(w, y)[j].val() == crate::field::fm(
            poly_out(poly, assigned_vals(w, x))[j] as int,
        ),
{
    let cs = c.cs.all_constraints();
    let g = GateKind::Applied { poly };
    let i = choose|i: int| 0 <= i < cs.len() && (#[trigger] cs[i]).gate.kind() == g && cs[i].inputs@ == x + y;
    assert(constraint_holds(cs[i], w));
    assert(cs[i].inputs@.len() == cs[i].gate.spec_i());
    let n = poly_i(poly);
    let xs = assigned_vals(w, x + y);
    assert(xs.take(n as int) =~= assigned_vals(w, x));
    assert forall|j: int| 0 <= j < y.len() implies #[trigger] assigned_vals(w, y)[j].val() == crate::field::fm(
        poly_out(poly, assigned_vals(w, x))[j] as int,
    ) by {
        let a = poly_out(poly, assigned_vals(w, x))[j];
        let b = assigned_vals(w, y)[j].val();
        assert(xs[n + j] == assigned_vals(w, y)[j]);
        assert(cs[i].gate.spec_exec(xs)[j] == 0);
        assert(crate::field::fsub(a, b) == 0);
        crate::field::lemma_fm_bound(a as int);
        assigned_vals(w, y)[j].lemma_val_lt();
        crate::field::lemma_fm_canonical(b as int);
        crate::field::lemma_fsub_fm(a as int, b as int);
        crate::field::lemma_fsub_zero(crate::field::fm(a as int), b);
    }
}

/// Every constraint of the circuit holds on the witness.
pub open spec fn satisfied(c: Circuit, w: CSWtns) -> bool {
    forall|i: int| 0 <= i < c.cs.all_constraints().len() ==> #[trigger] constraint_holds(c.cs.all_constraints()[i], w)
}

/// The value the witness gives a variable.
pub open spec fn var_val(w: CSWtns, v: Variable) -> nat {
    w.slot(v).unwrap().unwrap().val()
}

/// A witness that satisfies a circuit satisfies every circuit it extends.
pub proof fn lemma_satisfied_kept(before: &Circuit, after: &Circuit, w: CSWtns)
    requires
        after.extends(before),
        satisfied(*after, w),
    ensures
        satisfied(*before, w),
{
    let b = before.cs.all_constraints();
    let a = after.cs.all_constraints();
    assert forall|i: int| 0 <= i < b.len() implies #[trigger] constraint_holds(b[i], w) by {
        assert(a.contains(b[i]));
        let k = choose|k: int| 0 <= k < a.len() && a[k] == b[i];
        assert(constraint_holds(a[k], w));
    }
}

/// Execution in rounds: a run between rounds has carried out every operation
/// of the rounds before its round counter, each giving its outputs what it
/// computes of its inputs, and has assigned exactly the variables of those
/// rounds.
pub proof fn law_executed_rounds(c: &ConstructedCircuit, run: &CircuitRun)
    requires
        run.inv(c),
    ensures
        forall|r: int, k: int|
            0 <= r < run.round_counter && 0 <= k < c.circuit.ops_view()[r].len() ==> op_holds(
                #[trigger] c.circuit.ops_view()[r][k],
                run.cs,
            ),
        forall|v: Variable| allocated(c.circuit.cs.wspec(), v) ==> (#[trigger] run.cs.is_set(v) <==> v.round < run.round_counter),
{
    let cc = c.circuit;
    assert forall|v: Variable| allocated(cc.cs.wspec(), v) implies (#[trigger] run.cs.is_set(v) <==> v.round
        < run.round_counter) by {
        assert(cc.owner@.dom().contains(v));
        assert(cc.owner@[v] >= 0);
    }
}

/// Each constraint of a well-formed circuit has as many inputs as its gate.
pub proof fn lemma_constraint_arity(c: &Circuit, i: int)
    requires
        c.wf(),
        0 <= i < c.cs.all_constraints().len(),
    ensures
        c.cs.all_constraints()[i].inputs@.len() == c.cs.all_constraints()[i].gate.spec_i(),
{
}

/// A well-formed circuit has a row of operations for each round.
pub proof fn lemma_ops_len(c: &Circuit)
    requires
        c.wf(),
    ensures
        c.ops_view().len() == c.rounds(),
{
}

/// The degree bound is a machine integer.
pub proof fn lemma_max_deg_bound(c: &Circuit)
    ensures
        c.max_deg() <= usize::MAX,
{
}

} // verus!
