//! Arithmetic gadgets: `smul a b + sa a + sb b + sconst`, sums, products,
//! equality and constants.

use vstd::prelude::*;
use crate::field::Fe;
use crate::constraint_system::{Variable, Visibility};
use crate::circuit::{Circuit, pushed, is_advice, has_gate, lemma_gate_kept};
use crate::gatelib::{LibGate, GateKind};
use crate::advice::AdviceKind;

verus! {

/// The constraints hold an arithmetic gate with coefficients of the values
/// `(smul, sa, sb, sconst)` on `inputs`.
pub open spec fn has_arith(
    cs: Seq<crate::constraint_system::Constraint<LibGate>>,
    coeffs: (nat, nat, nat, nat),
    inputs: Seq<Variable>,
) -> bool {
    exists|k: int| 0 <= k < cs.len() && arith_of(#[trigger] cs[k].gate.kind(), coeffs) && cs[k].inputs@ == inputs
}

/// A gate is arithmetic, with coefficients of the values given.
pub open spec fn arith_of(g: GateKind, coeffs: (nat, nat, nat, nat)) -> bool {
    match g {
        GateKind::Arith { smul, sa, sb, sconst } => smul.val() == coeffs.0 && sa.val() == coeffs.1 && sb.val()
            == coeffs.2 && sconst.val() == coeffs.3,
        _ => false,
    }
}

/// A recorded arithmetic gate has its coefficients' values.
proof fn lemma_has_arith(
    cs: Seq<crate::constraint_system::Constraint<LibGate>>,
    smul: Fe,
    sa: Fe,
    sb: Fe,
    sconst: Fe,
    inputs: Seq<Variable>,
)
    requires
        has_gate(cs, GateKind::Arith { smul, sa, sb, sconst }, inputs),
    ensures
        has_arith(cs, (smul.val(), sa.val(), sb.val(), sconst.val()), inputs),
{
    let k = choose|k: int| 0 <= k < cs.len() && (#[trigger] cs[k]).gate.kind() == (GateKind::Arith { smul, sa, sb, sconst }) && cs[k].inputs@ == inputs;
    assert(cs[k].gate.kind() == (GateKind::Arith { smul, sa, sb, sconst }));
}

/// A gate `smul a b + sa a + sb b + sconst - c` on `(a, b, c)`.
pub fn arith_gate(smul: Fe, sa: Fe, sb: Fe, sconst: Fe) -> (r: LibGate)
    ensures
        r.kind() == (GateKind::Arith { smul, sa, sb, sconst }),
{
    LibGate::new(GateKind::Arith { smul, sa, sb, sconst })
}

/// A gate `a - c` on `(a)`.
pub fn read_const_gate(c: Fe) -> (r: LibGate)
    ensures
        r.kind() == (GateKind::ReadConst { c }),
{
    LibGate::new(GateKind::ReadConst { c })
}

/// A new variable `c = smul a b + sa a + sb b + sconst` of `round`: an
/// advice computes it, and the arithmetic gate checks it.
pub fn arith_gadget(
    circuit: &mut Circuit,
    a: Variable,
    b: Variable,
    smul: Fe,
    sa: Fe,
    sb: Fe,
    sconst: Fe,
    round: usize,
) -> (c: Variable)
    requires
        old(circuit).wf(),
        round < old(circuit).rounds(),
        old(circuit).has_var(a),
        old(circuit).has_var(b),
        a.round <= round,
        b.round <= round,
        old(circuit).room(2),
    ensures
        final(circuit).grown(old(circuit), 2),
        final(circuit).fresh(old(circuit), seq![c], round as nat, Visibility::Private),
        pushed(final(circuit).ops_view(), old(circuit).ops_view(), round as int),
        is_advice(final(circuit).ops_view()[round as int].last(), seq![a, b], seq![c], AdviceKind::Arith { smul, sa, sb, sconst }),
        has_gate(final(circuit).cs.all_constraints(), GateKind::Arith { smul, sa, sb, sconst }, seq![a, b, c]),
        final(circuit).cs.all_constraints().len() == old(circuit).cs.all_constraints().len() + 1,
{
    let input = vec![a, b];
    proof {
        assert(input@ =~= seq![a, b]);
    }
    let out = circuit.advice(round, AdviceKind::Arith { smul, sa, sb, sconst }, input);
    let ghost mid = *circuit;
    proof {
        crate::circuit::lemma_room_step(old(circuit), &mid, 1, 1);
    }
    let c = out[0];
    proof {
        assert(out@ =~= seq![c]);
    }
    let io = vec![a, b, c];
    proof {
        assert(io@ =~= seq![a, b, c]);
    }
    circuit.constrain(io.as_slice(), arith_gate(smul, sa, sb, sconst));
    proof {
        crate::circuit::lemma_grown_trans(old(circuit), &mid, final(circuit), 1, 1);
    }
    c
}

/// `a + b`.
pub fn add_gadget(circuit: &mut Circuit, a: Variable, b: Variable, round: usize) -> (c: Variable)
    requires
        old(circuit).wf(),
        round < old(circuit).rounds(),
        old(circuit).has_var(a),
        old(circuit).has_var(b),
        a.round <= round,
        b.round <= round,
        old(circuit).room(2),
    ensures
        final(circuit).grown(old(circuit), 2),
        final(circuit).fresh(old(circuit), seq![c], round as nat, Visibility::Private),
        has_arith(final(circuit).cs.all_constraints(), (0, 1, 1, 0), seq![a, b, c]),
{
    let (z, o) = (Fe::zero(), Fe::one());
    let c = arith_gadget(circuit, a, b, z, o, o, z, round);
    proof {
        lemma_has_arith(final(circuit).cs.all_constraints(), z, o, o, z, seq![a, b, c]);
    }
    c
}

/// `a * b`.
pub fn mul_gadget(circuit: &mut Circuit, a: Variable, b: Variable, round: usize) -> (c: Variable)
    requires
        old(circuit).wf(),
        round < old(circuit).rounds(),
        old(circuit).has_var(a),
        old(circuit).has_var(b),
        a.round <= round,
        b.round <= round,
        old(circuit).room(2),
    ensures
        final(circuit).grown(old(circuit), 2),
        final(circuit).fresh(old(circuit), seq![c], round as nat, Visibility::Private),
        has_arith(final(circuit).cs.all_constraints(), (1, 0, 0, 0), seq![a, b, c]),
{
    let (z, o) = (Fe::zero(), Fe::one());
    let c = arith_gadget(circuit, a, b, o, z, z, z, round);
    proof {
        lemma_has_arith(final(circuit).cs.all_constraints(), o, z, z, z, seq![a, b, c]);
    }
    c
}

/// Constrains `a == b`, through the arithmetic gate on `(a, a, b)` that
/// computes `a`.
pub fn eq_gadget(circuit: &mut Circuit, a: Variable, b: Variable)
    requires
        old(circuit).wf(),
        old(circuit).has_var(a),
        old(circuit).has_var(b),
        old(circuit).rhs_room(1),
    ensures
        final(circuit).wf(),
        final(circuit).extends(old(circuit)),
        final(circuit).grew(old(circuit), 1),
        final(circuit).ops_view() == old(circuit).ops_view(),
        final(circuit).cs.wspec() == old(circuit).cs.wspec(),
        has_arith(final(circuit).cs.all_constraints(), (0, 1, 0, 0), seq![a, a, b]),
{
    let (z, o) = (Fe::zero(), Fe::one());
    let io = vec![a, a, b];
    proof {
        assert(io@ =~= seq![a, a, b]);
    }
    circuit.constrain(io.as_slice(), arith_gate(z, o, z, z));
    proof {
        lemma_has_arith(final(circuit).cs.all_constraints(), z, o, z, z, seq![a, a, b]);
    }
}

/// A new variable of `round` holding the constant `c`, checked by a gate
/// `v - c`.
pub fn read_const_gadget(circuit: &mut Circuit, c: Fe, round: usize) -> (v: Variable)
    requires
        old(circuit).wf(),
        round < old(circuit).rounds(),
        old(circuit).room(2),
    ensures
        final(circuit).grown(old(circuit), 2),
        final(circuit).fresh(old(circuit), seq![v], round as nat, Visibility::Private),
        pushed(final(circuit).ops_view(), old(circuit).ops_view(), round as int),
        is_advice(final(circuit).ops_view()[round as int].last(), Seq::empty(), seq![v], AdviceKind::Const { c }),
        has_gate(final(circuit).cs.all_constraints(), GateKind::ReadConst { c }, seq![v]),
        final(circuit).cs.wspec().num_exts == old(circuit).cs.wspec().num_exts,
{
    let out = circuit.advice(round, AdviceKind::Const { c }, Vec::new());
    let ghost mid = *circuit;
    proof {
        crate::circuit::lemma_room_step(old(circuit), &mid, 1, 1);
    }
    let v = out[0];
    proof {
        assert(out@ =~= seq![v]);
    }
    let io = vec![v];
    proof {
        assert(io@ =~= seq![v]);
    }
    circuit.constrain(io.as_slice(), read_const_gate(c));
    proof {
        crate::circuit::lemma_grown_trans(old(circuit), &mid, final(circuit), 1, 1);
    }
    v
}

} // verus!
