//! What a finished circuit run produces: the folding challenges, the
//! relaxed witness, and whether the witness satisfies the constraints.

use vstd::prelude::*;
use vstd::arithmetic::power2::pow2;
use crate::field::{Fe, fmul, fm, vals, field_modulus, lemma_fmul_assoc, lemma_fm_canonical};
use crate::field_utils::fpow;
use crate::gate::Gate;
use crate::constraint_system::{Constraint, ProtoGalaxyConstraintSystem, Variable};
use crate::witness::{CSWtns, ProtostarWtns, ProtostarLhsWtns};

verus! {

/// Powers add in the exponent.
pub proof fn lemma_fpow_add(b: nat, e1: nat, e2: nat)
    requires
        b < field_modulus(),
    ensures
        fmul(fpow(b, e1), fpow(b, e2)) == fpow(b, e1 + e2),
        fpow(b, e1) < field_modulus(),
    decreases e2,
{
    lemma_fpow_lt(b, e1);
    if e2 == 0 {
        lemma_fm_canonical(1);
        vstd::arithmetic::div_mod::lemma_small_mod(fpow(b, e1), field_modulus());
        assert(fpow(b, e1) * 1 == fpow(b, e1));
    } else {
        lemma_fpow_add(b, e1, (e2 - 1) as nat);
        lemma_fmul_assoc(fpow(b, e1), fpow(b, (e2 - 1) as nat), b);
        assert((e1 + e2 - 1) as nat == e1 + (e2 - 1) as nat);
    }
}

proof fn lemma_fpow_lt(b: nat, e: nat)
    ensures
        fpow(b, e) < field_modulus(),
    decreases e,
{
    if e == 0 {
        crate::field::lemma_fm_bound(1);
    } else {
        lemma_fpow_lt(b, (e - 1) as nat);
    }
}

/// The challenges of a run with `m` nonlinear outputs: `beta^(2^i)` for
/// `i < k`, where `k` is the least with `2^k >= m`.
pub fn protostar_challenges(m: usize, beta: Fe) -> (r: Vec<Fe>)
    requires
        m <= usize::MAX / 2 + 1,
    ensures
        pow2(r@.len()) >= m,
        r@.len() == 0 || pow2((r@.len() - 1) as nat) < m,
        forall|i: int| 0 <= i < r@.len() ==> (#[trigger] r@[i]).val() == fpow(beta.val(), pow2(i as nat)),
{
    let mut p: usize = 1;
    let mut b = beta;
    let mut out: Vec<Fe> = Vec::new();
    proof {
        vstd::arithmetic::power2::lemma2_to64();
        beta.lemma_val_lt();
        lemma_fm_canonical(1);
        vstd::arithmetic::div_mod::lemma_small_mod(beta.val(), field_modulus());
        assert(1 * beta.val() == beta.val());
        assert(fpow(beta.val(), 1) == fmul(fpow(beta.val(), 0), beta.val()));
    }
    while p < m
        invariant
            m <= usize::MAX / 2 + 1,
            beta.val() < field_modulus(),
            p == pow2(out@.len()),
            out@.len() == 0 || pow2((out@.len() - 1) as nat) < m,
            b.val() == fpow(beta.val(), pow2(out@.len())),
            forall|i: int| 0 <= i < out@.len() ==> (#[trigger] out@[i]).val() == fpow(beta.val(), pow2(i as nat)),
        decreases usize::MAX - p,
    {
        out.push(b);
        proof {
            vstd::arithmetic::power2::lemma_pow2_pos((out@.len() - 1) as nat);
            lemma_fpow_add(beta.val(), pow2((out@.len() - 1) as nat), pow2((out@.len() - 1) as nat));
            vstd::arithmetic::power2::lemma_pow2_unfold(out@.len());
        }
        b = b.mul(&b);
        p = p * 2;
    }
    out
}

/// Every variable of every round is assigned.
pub open spec fn fully_assigned(w: CSWtns) -> bool {
    &&& forall|r: int, i: int|
        0 <= r < w.wtns@.len() && 0 <= i < w.wtns@[r].pubs@.len() ==> (#[trigger] w.wtns@[r].pubs@[i]) is Some
    &&& forall|r: int, i: int|
        0 <= r < w.wtns@.len() && 0 <= i < w.wtns@[r].privs@.len() ==> (#[trigger] w.wtns@[r].privs@[i]) is Some
}

/// The assigned values of a list.
fn unwrap_all(v: &Vec<Option<Fe>>) -> (r: Vec<Fe>)
    requires
        forall|i: int| 0 <= i < v@.len() ==> (#[trigger] v@[i]) is Some,
    ensures
        r@.len() == v@.len(),
        forall|i: int| 0 <= i < v@.len() ==> v@[i] == Some(#[trigger] r@[i]),
{
    let mut out: Vec<Fe> = Vec::new();
    let mut i: usize = 0;
    while i < v.len()
        invariant
            i <= v@.len(),
            forall|k: int| 0 <= k < v@.len() ==> (#[trigger] v@[k]) is Some,
            out@.len() == i,
            forall|k: int| 0 <= k < i ==> v@[k] == Some(#[trigger] out@[k]),
        decreases v@.len() - i,
    {
        out.push(v[i].unwrap());
        i = i + 1;
    }
    out
}

/// The relaxed witness of a fully assigned run: its values, the given
/// challenges, and error zero.
pub fn protostar_witness(w: &CSWtns, protostar_challenges: Vec<Fe>) -> (r: ProtostarWtns)
    requires
        fully_assigned(*w),
    ensures
        r.lhs.round_wtns@.len() == w.wtns@.len(),
        r.lhs.pubs@.len() == w.wtns@.len(),
        forall|k: int| 0 <= k < w.wtns@.len() ==> (#[trigger] r.lhs.round_wtns@[k])@.len() == w.wtns@[k].privs@.len()
            && r.lhs.pubs@[k]@.len() == w.wtns@[k].pubs@.len(),
        forall|k: int, i: int| 0 <= k < w.wtns@.len() && 0 <= i < w.wtns@[k].privs@.len() ==> w.wtns@[k].privs@[i] == Some(
            #[trigger] r.lhs.round_wtns@[k]@[i],
        ),
        forall|k: int, i: int| 0 <= k < w.wtns@.len() && 0 <= i < w.wtns@[k].pubs@.len() ==> w.wtns@[k].pubs@[i] == Some(
            #[trigger] r.lhs.pubs@[k]@[i],
        ),
        r.lhs.protostar_challenges@ == protostar_challenges@,
        r.error.val() == 0,
{
    let mut pubs: Vec<Vec<Fe>> = Vec::new();
    let mut round_wtns: Vec<Vec<Fe>> = Vec::new();
    let mut k: usize = 0;
    while k < w.wtns.len()
        invariant
            fully_assigned(*w),
            k <= w.wtns@.len(),
            pubs@.len() == k,
            round_wtns@.len() == k,
            forall|j: int| 0 <= j < k ==> (#[trigger] round_wtns@[j])@.len() == w.wtns@[j].privs@.len(),
            forall|j: int| 0 <= j < k ==> (#[trigger] pubs@[j])@.len() == w.wtns@[j].pubs@.len(),
            forall|j: int, i: int| 0 <= j < k && 0 <= i < w.wtns@[j].privs@.len() ==> w.wtns@[j].privs@[i] == Some(
                #[trigger] round_wtns@[j]@[i],
            ),
            forall|j: int, i: int| 0 <= j < k && 0 <= i < w.wtns@[j].pubs@.len() ==> w.wtns@[j].pubs@[i] == Some(
                #[trigger] pubs@[j]@[i],
            ),
        decreases w.wtns@.len() - k,
    {
        proof {
            assert forall|i: int| 0 <= i < w.wtns@[k as int].privs@.len() implies (#[trigger] w.wtns@[k as int].privs@[i]) is Some by {}
            assert forall|i: int| 0 <= i < w.wtns@[k as int].pubs@.len() implies (#[trigger] w.wtns@[k as int].pubs@[i]) is Some by {}
        }
        let rw = unwrap_all(&w.wtns[k].privs);
        let pw = unwrap_all(&w.wtns[k].pubs);
        let ghost rw0 = round_wtns@;
        let ghost pw0 = pubs@;
        round_wtns.push(rw);
        pubs.push(pw);
        proof {
            assert(round_wtns@[k as int] == rw);
            assert(pubs@[k as int] == pw);
            assert forall|j: int| 0 <= j < k + 1 implies (#[trigger] round_wtns@[j])@.len() == w.wtns@[j].privs@.len() by {
                if j < k {
                    assert(round_wtns@[j] == rw0[j]);
                }
            }
            assert forall|j: int| 0 <= j < k + 1 implies (#[trigger] pubs@[j])@.len() == w.wtns@[j].pubs@.len() by {
                if j < k {
                    assert(pubs@[j] == pw0[j]);
                }
            }
        }
        k = k + 1;
    }
    ProtostarWtns { lhs: ProtostarLhsWtns { round_wtns, pubs, protostar_challenges }, error: Fe::zero() }
}

/// The assigned values of a list of variables.
pub open spec fn assigned_vals(w: CSWtns, vars: Seq<Variable>) -> Seq<Fe> {
    Seq::new(vars.len(), |i: int| w.slot(vars[i]).unwrap().unwrap())
}

/// Every output of the constraint's gate is zero on the witness.
pub open spec fn constraint_holds<G: Gate>(c: Constraint<G>, w: CSWtns) -> bool {
    forall|j: int| 0 <= j < c.gate.spec_exec(assigned_vals(w, c.inputs@)).len() ==> #[trigger] c.gate.spec_exec(
        assigned_vals(w, c.inputs@),
    )[j] == 0
}

/// Whether every constraint of the system holds on the witness; all their
/// variables must be assigned.
pub fn witness_satisfies<G: Gate>(cs: &ProtoGalaxyConstraintSystem<G>, w: &CSWtns) -> (b: bool)
    requires
        forall|k: int| 0 <= k < cs.all_constraints().len() ==> (#[trigger] cs.all_constraints()[k]).inputs@.len() == cs.all_constraints()[k].gate.spec_i(),
        forall|k: int, j: int|
            0 <= k < cs.all_constraints().len() && 0 <= j < cs.all_constraints()[k].inputs@.len() ==> w.is_set(
                #[trigger] cs.all_constraints()[k].inputs@[j],
            ),
    ensures
        b == forall|k: int| 0 <= k < cs.all_constraints().len() ==> #[trigger] constraint_holds(cs.all_constraints()[k], *w),
{
    let constrs = cs.iter_constraints();
    let ghost all = cs.all_constraints();
    let mut k: usize = 0;
    while k < constrs.len()
        invariant
            all == cs.all_constraints(),
            constrs@.len() == all.len(),
            forall|j: int| 0 <= j < constrs@.len() ==> *(#[trigger] constrs@[j]) == all[j],
            forall|kk: int| 0 <= kk < all.len() ==> (#[trigger] all[kk]).inputs@.len() == all[kk].gate.spec_i(),
            forall|kk: int, j: int| 0 <= kk < all.len() && 0 <= j < all[kk].inputs@.len() ==> w.is_set(#[trigger] all[kk].inputs@[j]),
            k <= all.len(),
            forall|j: int| 0 <= j < k ==> #[trigger] constraint_holds(all[j], *w),
        decreases all.len() - k,
    {
        let c = constrs[k];
        let vs = w.get_vars(c.inputs.as_slice());
        proof {
            assert(vs@ =~= assigned_vals(*w, c.inputs@));
        }
        let out = c.gate.exec(vs.as_slice());
        let mut j: usize = 0;
        while j < out.len()
            invariant
                j <= out@.len(),
                *c == all[k as int],
                0 <= k < all.len(),
                all == cs.all_constraints(),
                vals(out@) == c.gate.spec_exec(assigned_vals(*w, c.inputs@)),
                forall|t: int| 0 <= t < j ==> (#[trigger] out@[t]).val() == 0,
            decreases out@.len() - j,
        {
            if !out[j].is_zero() {
                proof {
                    assert(vals(out@)[j as int] != 0);
                    assert(c.gate.spec_exec(assigned_vals(*w, c.inputs@))[j as int] != 0);
                    assert(!constraint_holds(all[k as int], *w));
                }
                return false;
            }
            j = j + 1;
        }
        proof {
            assert forall|t: int| 0 <= t < c.gate.spec_exec(assigned_vals(*w, c.inputs@)).len() implies #[trigger] c.gate.spec_exec(
                assigned_vals(*w, c.inputs@),
            )[t] == 0 by {
                assert(vals(out@)[t] == out@[t].val());
            }
        }
        k = k + 1;
    }
    true
}

} // verus!
