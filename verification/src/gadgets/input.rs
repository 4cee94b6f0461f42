//! Loading an external value into the circuit as a public variable.

use vstd::prelude::*;
use crate::constraint_system::{ExternalValue, Variable, Visibility};
use crate::circuit::{Circuit, pushed, is_advice_pub};
use crate::advice::AdviceKind;

verus! {

/// A new public variable of `round` that takes the external value `inp`.
pub fn input(circuit: &mut Circuit, inp: ExternalValue, round: usize) -> (r: Variable)
    requires
        old(circuit).wf(),
        round < old(circuit).rounds(),
        inp.addr < old(circuit).cs.wspec().num_exts,
        old(circuit).room(1),
    ensures
        final(circuit).grown(old(circuit), 1),
        final(circuit).cs.all_constraints() == old(circuit).cs.all_constraints(),
        final(circuit).cs.wspec().num_exts == old(circuit).cs.wspec().num_exts,
        final(circuit).fresh(old(circuit), seq![r], round as nat, Visibility::Public),
        pushed(final(circuit).ops_view(), old(circuit).ops_view(), round as int),
        is_advice_pub(final(circuit).ops_view()[round as int].last(), seq![inp], seq![r], AdviceKind::Copy),
{
    let aux = vec![inp];
    proof {
        assert(aux@ =~= seq![inp]);
    }
    let v = circuit.advice_pub(round, AdviceKind::Copy, aux);
    proof {
        assert(v@ =~= seq![v@[0]]);
    }
    v[0]
}

} // verus!
