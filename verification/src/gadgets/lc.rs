//! Linear combinations: sums and inner products of field elements.

use vstd::prelude::*;
use crate::field::{Fe, fadd, fmul, fsum, vals};
use crate::constraint_system::{Variable, Visibility};
use crate::circuit::{Circuit, pushed, is_poly, has_gate, has_gate_with, lemma_gate_with, Operation};
use crate::gatelib::{LibGate, GateKind, PolyKind};
use std::rc::Rc;

verus! {

/// The pointwise products of two sequences of the same length.
pub open spec fn pointwise(a: Seq<nat>, b: Seq<nat>) -> Seq<nat> {
    Seq::new(a.len(), |i: int| fmul(a[i], b[i]))
}

/// `sum_i a[i] * b[i]`; the lengths must agree.
pub fn inner_prod(a: &[Fe], b: &[Fe]) -> (r: Fe)
    requires
        a@.len() == b@.len(),
    ensures
        r.val() == fsum(pointwise(vals(a@), vals(b@))),
{
    let mut acc = Fe::zero();
    let mut i: usize = 0;
    while i < a.len()
        invariant
            a@.len() == b@.len(),
            i <= a@.len(),
            acc.val() == fsum(pointwise(vals(a@), vals(b@)).take(i as int)),
        decreases a@.len() - i,
    {
        acc = acc.add(&a[i].mul(&b[i]));
        proof {
            assert(pointwise(vals(a@), vals(b@)).take(i + 1).drop_last() =~= pointwise(vals(a@), vals(b@)).take(i as int));
        }
        i = i + 1;
    }
    proof {
        assert(pointwise(vals(a@), vals(b@)).take(i as int) =~= pointwise(vals(a@), vals(b@)));
    }
    acc
}

/// `sum_i args[i]`.
pub fn sum_arr(args: &[Fe]) -> (r: Fe)
    ensures
        r.val() == fsum(vals(args@)),
{
    let mut acc = Fe::zero();
    let mut i: usize = 0;
    while i < args.len()
        invariant
            i <= args@.len(),
            acc.val() == fsum(vals(args@).take(i as int)),
        decreases args@.len() - i,
    {
        acc = acc.add(&args[i]);
        proof {
            assert(vals(args@).take(i + 1).drop_last() =~= vals(args@).take(i as int));
        }
        i = i + 1;
    }
    proof {
        assert(vals(args@).take(i as int) =~= vals(args@));
    }
    acc
}

/// The linear gate has the coefficients given.
pub open spec fn lc_constr_of(g: GateKind, coeffs: Seq<Fe>) -> bool {
    match g {
        GateKind::LcConstr { coeffs: c } => c@ == coeffs,
        _ => false,
    }
}

/// The polynomial is the linear combination with the coefficients given.
pub open spec fn lc_poly_of(p: PolyKind, coeffs: Seq<Fe>) -> bool {
    match p {
        PolyKind::Lc { coeffs: c } => c@ == coeffs,
        _ => false,
    }
}

/// A gate applies the linear combination with the coefficients given.
pub open spec fn applied_lc_of(g: GateKind, coeffs: Seq<Fe>) -> bool {
    match g {
        GateKind::Applied { poly } => lc_poly_of(poly, coeffs),
        _ => false,
    }
}

/// Constrains `sum_i coeffs[i] * vars[i] == 0`.
pub fn lc_constr(circuit: &mut Circuit, coeffs: &[Fe], vars: &[Variable])
    requires
        old(circuit).wf(),
        coeffs@.len() == vars@.len(),
        forall|a: int| 0 <= a < vars@.len() ==> old(circuit).has_var(#[trigger] vars@[a]),
        old(circuit).rhs_room(1),
    ensures
        final(circuit).wf(),
        final(circuit).extends(old(circuit)),
        final(circuit).grew(old(circuit), 1),
        final(circuit).ops_view() == old(circuit).ops_view(),
        final(circuit).cs.wspec() == old(circuit).cs.wspec(),
        has_gate_with(final(circuit).cs.all_constraints(), |g: GateKind| lc_constr_of(g, coeffs@), vars@),
{
    let c = Rc::new(vstd::slice::slice_to_vec(coeffs));
    let ghost kind = GateKind::LcConstr { coeffs: c };
    circuit.constrain(vars, LibGate::new(GateKind::LcConstr { coeffs: c }));
    proof {
        lemma_gate_with(final(circuit).cs.all_constraints(), kind, |g: GateKind| lc_constr_of(g, coeffs@), vars@);
    }
}

/// A new variable of `round`: the inner product of `a` and `b`.
pub fn qc(circuit: &mut Circuit, a: &[Variable], b: &[Variable], round: usize) -> (r: Variable)
    requires
        old(circuit).wf(),
        round < old(circuit).rounds(),
        a@.len() == b@.len(),
        2 * a@.len() + 1 <= usize::MAX,
        2 <= old(circuit).max_deg(),
        forall|i: int| 0 <= i < a@.len() ==> old(circuit).has_var(#[trigger] a@[i]) && a@[i].round <= round,
        forall|i: int| 0 <= i < b@.len() ==> old(circuit).has_var(#[trigger] b@[i]) && b@[i].round <= round,
        old(circuit).room(1),
    ensures
        final(circuit).grown(old(circuit), 1),
        final(circuit).fresh(old(circuit), seq![r], round as nat, Visibility::Private),
        pushed(final(circuit).ops_view(), old(circuit).ops_view(), round as int),
        is_poly(final(circuit).ops_view()[round as int].last(), a@ + b@, seq![r], PolyKind::Qc { n: a@.len() as usize }),
        has_gate(final(circuit).cs.all_constraints(), GateKind::Applied { poly: PolyKind::Qc { n: a@.len() as usize } }, a@ + b@ + seq![r]),
{
    let mut args = crate::constraint_system::copy_vars(a);
    let mut i: usize = 0;
    while i < b.len()
        invariant
            i <= b@.len(),
            args@ == a@ + b@.take(i as int),
        decreases b@.len() - i,
    {
        args.push(b[i]);
        i = i + 1;
        proof {
            assert(args@ =~= a@ + b@.take(i as int));
        }
    }
    proof {
        assert(b@.take(b@.len() as int) =~= b@);
        assert forall|k: int| 0 <= k < args@.len() implies old(circuit).has_var(#[trigger] args@[k]) && args@[k].round <= round by {
            if k >= a@.len() {
                assert(args@[k] == b@[k - a@.len()]);
            }
        }
    }
    let out = circuit.apply(round, PolyKind::Qc { n: a.len() }, args);
    proof {
        assert(out@ =~= seq![out@[0]]);
    }
    out[0]
}

/// A new variable of `round`: `sum_i coeffs[i] * vars[i]`.
pub fn lc(circuit: &mut Circuit, coeffs: &[Fe], vars: &[Variable], round: usize) -> (r: Variable)
    requires
        old(circuit).wf(),
        round < old(circuit).rounds(),
        coeffs@.len() == vars@.len(),
        vars@.len() + 1 <= usize::MAX,
        1 <= old(circuit).max_deg(),
        forall|i: int| 0 <= i < vars@.len() ==> old(circuit).has_var(#[trigger] vars@[i]) && vars@[i].round <= round,
        old(circuit).room(1),
    ensures
        final(circuit).grown(old(circuit), 1),
        final(circuit).fresh(old(circuit), seq![r], round as nat, Visibility::Private),
        pushed(final(circuit).ops_view(), old(circuit).ops_view(), round as int),
        final(circuit).ops_view()[round as int].last() matches Operation::Poly { input, output, poly } && input@ == vars@
            && output@ == seq![r] && lc_poly_of(poly, coeffs@),
        has_gate_with(final(circuit).cs.all_constraints(), |g: GateKind| applied_lc_of(g, coeffs@), vars@ + seq![r]),
{
    let c = Rc::new(vstd::slice::slice_to_vec(coeffs));
    let ghost poly = PolyKind::Lc { coeffs: c };
    let out = circuit.apply(round, PolyKind::Lc { coeffs: c }, crate::constraint_system::copy_vars(vars));
    proof {
        assert(out@ =~= seq![out@[0]]);
        lemma_gate_with(
            final(circuit).cs.all_constraints(),
            GateKind::Applied { poly },
            |g: GateKind| applied_lc_of(g, coeffs@),
            vars@ + seq![out@[0]],
        );
    }
    out[0]
}

/// A new variable of `round`: the sum of `vars`.
pub fn sum_gadget(circuit: &mut Circuit, vars: &[Variable], round: usize) -> (r: Variable)
    requires
        old(circuit).wf(),
        round < old(circuit).rounds(),
        vars@.len() + 1 <= usize::MAX,
        1 <= old(circuit).max_deg(),
        forall|i: int| 0 <= i < vars@.len() ==> old(circuit).has_var(#[trigger] vars@[i]) && vars@[i].round <= round,
        old(circuit).room(1),
    ensures
        final(circuit).grown(old(circuit), 1),
        final(circuit).fresh(old(circuit), seq![r], round as nat, Visibility::Private),
        pushed(final(circuit).ops_view(), old(circuit).ops_view(), round as int),
        is_poly(final(circuit).ops_view()[round as int].last(), vars@, seq![r], PolyKind::Sum { n: vars@.len() as usize }),
        has_gate(final(circuit).cs.all_constraints(), GateKind::Applied { poly: PolyKind::Sum { n: vars@.len() as usize } }, vars@ + seq![r]),
{
    let out = circuit.apply(round, PolyKind::Sum { n: vars.len() }, crate::constraint_system::copy_vars(vars));
    proof {
        assert(out@ =~= seq![out@[0]]);
    }
    out[0]
}

} // verus!
