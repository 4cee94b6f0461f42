//! The shape of a circuit, and the folding of the error of two instances.

use vstd::prelude::*;
use crate::field::{Fe, fadd, fsub, fmul, fm, vals};
use crate::gate::Gate;
use crate::constraint_system::{ProtoGalaxyConstraintSystem, WitnessSpec, ConstrSpec, RoundWitnessSpec, groups_rhs};
use crate::arith_helper::{ev, poly_eval, power_sum, law_poly_eval_power_sum};

verus! {

/// The shape of a circuit: its witness shape and constraint sizes.
pub struct Shape {
    pub wspec: WitnessSpec,
    pub cspec: ConstrSpec,
}

/// A copy of a witness shape.
pub fn copy_wspec(w: &WitnessSpec) -> (r: WitnessSpec)
    ensures
        r.round_specs@ == w.round_specs@,
        r.num_ints == w.num_ints,
        r.num_exts == w.num_exts,
{
    let mut rs: Vec<RoundWitnessSpec> = Vec::new();
    let mut i: usize = 0;
    while i < w.round_specs.len()
        invariant
            i <= w.round_specs@.len(),
            rs@ == w.round_specs@.take(i as int),
        decreases w.round_specs@.len() - i,
    {
        rs.push(w.round_specs[i]);
        proof {
            assert(w.round_specs@.take(i + 1) =~= w.round_specs@.take(i as int).push(w.round_specs@[i as int]));
        }
        i = i + 1;
    }
    proof {
        assert(w.round_specs@.take(i as int) =~= w.round_specs@);
    }
    WitnessSpec { round_specs: rs, num_ints: w.num_ints, num_exts: w.num_exts }
}

impl Shape {
    /// The shape of a constraint system.
    pub fn new<G: Gate>(c: &ProtoGalaxyConstraintSystem<G>) -> (r: Self)
        requires
            c.wf(),
            groups_rhs(c.groups()) <= usize::MAX,
        ensures
            r.wspec.round_specs@ == c.wspec().round_specs@,
            r.wspec.num_ints == c.wspec().num_ints,
            r.wspec.num_exts == c.wspec().num_exts,
            r.cspec.num_lin_constraints == c.linear().num_rhs,
            r.cspec.num_nonlinear_constraints == groups_rhs(c.groups()),
            r.cspec.max_degree == c.max_deg(),
    {
        let wspec = copy_wspec(c.witness_spec());
        let cspec = c.constr_spec();
        Self { wspec, cspec }
    }
}

/// The error of the folded instance, the line polynomial
/// `(1 - t) e_acc + t e_inc + t (t - 1) v(t)`, where `v`, the quotient of the
/// line polynomial by `t (t - 1)`, has the coefficients `cross_terms`.
pub open spec fn fold_error_spec(error_acc: nat, error_inc: nat, cross_terms: Seq<nat>, t: nat) -> nat {
    let nt = fsub(1, t);
    fadd(fadd(fmul(nt, error_acc), fmul(t, error_inc)), fmul(fmul(t, fsub(t, 1)), poly_eval(cross_terms, t)))
}

/// The folded error is the line polynomial in `t`: in the field,
/// `(1 - t) e_acc + t e_inc + t (t - 1) sum_i cross_terms[i] t^i`.
pub proof fn law_fold_error(error_acc: nat, error_inc: nat, cross_terms: Seq<nat>, t: nat)
    requires
        error_acc < crate::field::field_modulus(),
        error_inc < crate::field::field_modulus(),
        t < crate::field::field_modulus(),
        forall|i: int| 0 <= i < cross_terms.len() ==> #[trigger] cross_terms[i] < crate::field::field_modulus(),
    ensures
        fold_error_spec(error_acc, error_inc, cross_terms, t) == fm(
            (1 - t) * error_acc + t * error_inc + t * (t - 1) * power_sum(cross_terms, t as int),
        ),
{
    let (a, b) = (error_acc as int, error_inc as int);
    let ti = t as int;
    let s = power_sum(cross_terms, ti);
    law_poly_eval_power_sum(cross_terms, t);
    crate::field::lemma_fm_canonical(a);
    crate::field::lemma_fm_canonical(b);
    crate::field::lemma_fm_canonical(ti);
    crate::field::lemma_fm_canonical(1);
    crate::field::lemma_fsub_fm(1, ti);
    crate::field::lemma_fsub_fm(ti, 1);
    crate::field::lemma_fmul_fm(1 - ti, a);
    crate::field::lemma_fmul_fm(ti, b);
    crate::field::lemma_fmul_fm(ti, ti - 1);
    crate::field::lemma_fmul_fm(ti * (ti - 1), s);
    crate::field::lemma_fadd_fm((1 - ti) * a, ti * b);
    crate::field::lemma_fadd_fm((1 - ti) * a + ti * b, ti * (ti - 1) * s);
}

/// The error of the folded instance.
pub fn fold_error(error_acc: Fe, error_inc: Fe, cross_terms: &Vec<Fe>, t: Fe) -> (r: Fe)
    ensures
        r.val() == fold_error_spec(error_acc.val(), error_inc.val(), vals(cross_terms@), t.val()),
        r.val() == fm(
            (1 - t.val()) * error_acc.val() + t.val() * error_inc.val() + t.val() * (t.val() - 1) * power_sum(
                vals(cross_terms@),
                t.val() as int,
            ),
        ),
{
    proof {
        error_acc.lemma_val_lt();
        error_inc.lemma_val_lt();
        t.lemma_val_lt();
        crate::field::lemma_vals_lt(cross_terms@);
        law_fold_error(error_acc.val(), error_inc.val(), vals(cross_terms@), t.val());
    }
    let nt = Fe::one().sub(&t);
    let v = ev(cross_terms, t);
    let tm = t.sub(&Fe::one());
    nt.mul(&error_acc).add(&t.mul(&error_inc)).add(&t.mul(&tm).mul(&v))
}

} // verus!
