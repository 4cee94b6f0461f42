//! Products of many variables, as polynomials of bounded degree.

use vstd::prelude::*;
use crate::constraint_system::{Variable, Visibility};
use crate::circuit::{
    Circuit, pushed, is_poly, has_gate, lemma_grown_trans, lemma_grown_mono, lemma_room_left, lemma_extends_refl, satisfied,
    var_val, lemma_satisfied_kept, law_applied_gate_sound,
};
use crate::gatelib::{GateKind, PolyKind};
use crate::field::{fprod, vals, fmul, lemma_fprod_lt, lemma_fprod_single, lemma_fm_canonical};
use crate::run::assigned_vals;
use crate::witness::CSWtns;

verus! {

/// The product of the inputs in a single polynomial: the unit for none,
/// the input itself for one.
pub fn prod_flat_gadget(circuit: &mut Circuit, input: Vec<Variable>, round: usize) -> (r: Variable)
    requires
        old(circuit).wf(),
        round < old(circuit).rounds(),
        forall|a: int| 0 <= a < input@.len() ==> old(circuit).has_var(#[trigger] input@[a]) && input@[a].round <= round,
        input@.len() >= 2 ==> input@.len() <= old(circuit).max_deg(),
        input@.len() + 1 <= usize::MAX,
        old(circuit).room(2),
    ensures
        final(circuit).grown(old(circuit), 2),
        input@.len() == 0 ==> r == old(circuit).one_spec() && *final(circuit) == *old(circuit),
        input@.len() == 1 ==> r == input@[0] && *final(circuit) == *old(circuit),
        input@.len() >= 2 ==> {
            &&& final(circuit).fresh(old(circuit), seq![r], round as nat, Visibility::Private)
            &&& pushed(final(circuit).ops_view(), old(circuit).ops_view(), round as int)
            &&& is_poly(final(circuit).ops_view()[round as int].last(), input@, seq![r], PolyKind::Prod { n: input@.len() as usize })
            &&& has_gate(final(circuit).cs.all_constraints(), GateKind::Applied { poly: PolyKind::Prod { n: input@.len() as usize } }, input@ + seq![r])
        },
        input@.len() >= 1 ==> final(circuit).has_var(r) && r.round <= round,
        input@.len() >= 1 ==> forall|w: CSWtns| #[trigger] satisfied(*final(circuit), w) ==> var_val(w, r) == fprod(
            vals(assigned_vals(w, input@)),
        ),
{
    proof {
        lemma_extends_refl(old(circuit));
        if input@.len() == 1 {
            assert forall|w: CSWtns| #[trigger] satisfied(*old(circuit), w) implies var_val(w, input@[0]) == fprod(
                vals(assigned_vals(w, input@)),
            ) by {
                assigned_vals(w, input@)[0].lemma_val_lt();
                assert(vals(assigned_vals(w, input@)) =~= seq![var_val(w, input@[0])]);
                lemma_fprod_single(var_val(w, input@[0]));
            }
        }
    }
    if input.len() == 0 {
        circuit.one()
    } else if input.len() == 1 {
        input[0]
    } else {
        let n = input.len();
        let ghost inp = input@;
        let out = circuit.apply(round, PolyKind::Prod { n }, input);
        proof {
            assert(out@ =~= seq![out@[0]]);
            lemma_grown_mono(old(circuit), circuit, 1, 2);
            assert forall|w: CSWtns| #[trigger] satisfied(*circuit, w) implies var_val(w, out@[0]) == fprod(
                vals(assigned_vals(w, inp)),
            ) by {
                law_applied_gate_sound(*circuit, w, PolyKind::Prod { n }, inp, out@);
                let x = assigned_vals(w, inp);
                assert(x.take(n as int) =~= x);
                lemma_fprod_lt(vals(x));
                lemma_fm_canonical(fprod(vals(x)) as int);
                assert(var_val(w, out@[0]) == assigned_vals(w, out@)[0].val());
            }
        }
        out[0]
    }
}

/// The degree of the products `prod_run_gadget` applies.
pub open spec fn run_degree(len: nat, rate: nat) -> nat {
    if len < 2 {
        0
    } else if rate == 1 || len <= rate {
        len
    } else {
        rate
    }
}

/// The product of the inputs, multiplied `rate` at a time: the first `rate`
/// together, then the rest `rate - 1` at a time with the previous result.
pub fn prod_run_gadget(circuit: &mut Circuit, input: Vec<Variable>, round: usize, rate: usize) -> (r: Variable)
    requires
        old(circuit).wf(),
        round < old(circuit).rounds(),
        rate > 0,
        forall|a: int| 0 <= a < input@.len() ==> old(circuit).has_var(#[trigger] input@[a]) && input@[a].round <= round,
        run_degree(input@.len(), rate as nat) <= old(circuit).max_deg(),
        input@.len() + 1 <= usize::MAX,
        old(circuit).room(2 * input@.len() + 2),
    ensures
        final(circuit).grown(old(circuit), 2 * input@.len() + 2),
        input@.len() == 0 ==> r == old(circuit).one_spec(),
        input@.len() == 1 ==> r == input@[0],
        input@.len() >= 1 ==> final(circuit).has_var(r) && r.round <= round,
        input@.len() >= 1 ==> forall|w: CSWtns| #[trigger] satisfied(*final(circuit), w) ==> var_val(w, r) == fprod(
            vals(assigned_vals(w, input@)),
        ),
{
    let ghost start = *circuit;
    let ghost len = input@.len();
    let mut acc: Vec<Variable> = Vec::new();
    let mut used: usize = 0;
    let mut i: usize = 0;
    proof {
        lemma_extends_refl(&start);
    }
    while i < input.len()
        invariant
            start == *old(circuit),
            len == input@.len(),
            i <= len,
            rate > 0,
            len + 1 <= usize::MAX,
            start.room(2 * len + 2),
            used <= 2 * i,
            circuit.grown(&start, used as nat),
            circuit.rounds() == start.rounds(),
            circuit.max_deg() == start.max_deg(),
            run_degree(len, rate as nat) <= start.max_deg(),
            acc@.len() <= i,
            i > 0 ==> acc@.len() >= 1,
            rate >= 2 ==> acc@.len() <= rate,
            rate == 1 ==> acc@.len() <= i,
            acc@.len() >= 2 ==> acc@.len() <= run_degree(len, rate as nat),
            forall|a: int| 0 <= a < acc@.len() ==> circuit.has_var(#[trigger] acc@[a]) && acc@[a].round <= round,
            forall|a: int| 0 <= a < input@.len() ==> start.has_var(#[trigger] input@[a]) && input@[a].round <= round,
            round < start.rounds(),
            i == 0 ==> acc@.len() == 0,
            i == 1 ==> acc@ == seq![input@[0]],
            forall|w: CSWtns| #[trigger] satisfied(*circuit, w) ==> fprod(vals(assigned_vals(w, acc@))) == fprod(
                vals(assigned_vals(w, input@.take(i as int))),
            ),
        decreases len - i,
    {
        if acc.len() == rate {
            let ghost prev = *circuit;
            let ghost acc0 = acc@;
            proof {
                lemma_room_left(&start, &prev, used as nat, 2 * len + 2);
            }
            let p = prod_flat_gadget(circuit, acc, round);
            proof {
                lemma_grown_trans(&start, &prev, circuit, used as nat, 2);
            }
            used = used + 2;
            acc = Vec::new();
            acc.push(p);
            proof {
                assert forall|w: CSWtns| #[trigger] satisfied(*circuit, w) implies fprod(vals(assigned_vals(w, acc@)))
                    == fprod(vals(assigned_vals(w, input@.take(i as int)))) by {
                    lemma_satisfied_kept(&prev, circuit, w);
                    assert(satisfied(prev, w));
                    assert(vals(assigned_vals(w, acc@)) =~= seq![var_val(w, p)]);
                    assigned_vals(w, acc@)[0].lemma_val_lt();
                    lemma_fprod_single(var_val(w, p));
                }
            }
        }
        let ghost before_push = acc@;
        acc.push(input[i]);
        proof {
            assert forall|w: CSWtns| #[trigger] satisfied(*circuit, w) implies fprod(vals(assigned_vals(w, acc@))) == fprod(
                vals(assigned_vals(w, input@.take(i + 1))),
            ) by {
                let va = vals(assigned_vals(w, acc@));
                let vp = vals(assigned_vals(w, input@.take(i + 1)));
                assert(va.drop_last() =~= vals(assigned_vals(w, before_push)));
                assert(vp.drop_last() =~= vals(assigned_vals(w, input@.take(i as int))));
                assert(va.last() == vp.last());
            }
        }
        proof {
            assert forall|a: int| 0 <= a < acc@.len() implies circuit.has_var(#[trigger] acc@[a]) && acc@[a].round <= round by {
                if a == acc@.len() - 1 {
                    assert(acc@[a] == input@[i as int]);
                    assert(start.has_var(input@[i as int]));
                } else {
                    assert(acc@[a] == before_push[a]);
                }
            }
            if i == 0 {
                assert(acc@ =~= seq![input@[0]]);
            }
        }
        i = i + 1;
    }
    let ghost prev = *circuit;
    proof {
        lemma_room_left(&start, &prev, used as nat, 2 * len + 2);
    }
    let ghost accf = acc@;
    proof {
        assert(input@.take(len as int) =~= input@);
    }
    let r = prod_flat_gadget(circuit, acc, round);
    proof {
        lemma_grown_trans(&start, &prev, circuit, used as nat, 2);
        lemma_grown_mono(&start, circuit, (used + 2) as nat, 2 * len + 2);
        if len >= 1 {
            assert forall|w: CSWtns| #[trigger] satisfied(*circuit, w) implies var_val(w, r) == fprod(
                vals(assigned_vals(w, input@)),
            ) by {
                lemma_satisfied_kept(&prev, circuit, w);
                assert(satisfied(prev, w));
            }
        }
    }
    r
}

} // verus!
