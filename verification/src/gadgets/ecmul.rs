//! Elliptic curve gadgets over a short Weierstrass curve `y^2 = x^3 + a x + b`
//! whose coordinates live in the circuit's field: points on the curve, the
//! collinearity and tangency checks, and addition and doubling with the
//! result as advice. Point doubling and addition in standard projective
//! coordinates, as the advice computes them, come first.

use vstd::prelude::*;
use crate::field::{Fe, fadd, fsub, fmul, finv, is_inverse, field_modulus, vals};
use crate::field_utils::FieldUtils;
use crate::constraint_system::{Variable, Visibility, copy_vars};
use crate::circuit::{
    Circuit, pushed, is_advice, is_poly, has_gate, lemma_gate_kept, lemma_grown_trans, lemma_room_step,
    lemma_fresh_kept, lemma_extends_refl, lemma_constraint_arity,
};
use crate::gate::Gate;
use crate::witness::CSWtns;
use crate::run::{assigned_vals, constraint_holds};
use crate::arith_helper::poly_eval;
use crate::gatelib::{LibGate, GateKind, PolyKind};
use crate::advice::AdviceKind;
use crate::gadgets::range::{VarSmall, limb_decompose_gadget, choice_gadget, small_vars};

verus! {

/// Doubling of the affine point `(x, y)` into projective coordinates:
/// with `w = 3x^2`, `b = x y^2` and `h = w^2 - 8b`, the point
/// `(2 h y, w (4b - h) - 8 y^4, 8 y^3)`.
pub open spec fn double_proj_spec(x: nat, y: nat) -> (nat, nat, nat) {
    let y_sq = fmul(y, y);
    let w = fmul(fmul(x, x), 3);
    let b = fmul(x, y_sq);
    let h = fsub(fmul(w, w), fmul(b, 8));
    (fmul(h, fmul(y, 2)), fsub(fmul(w, fsub(fmul(b, 4), h)), fmul(fmul(y_sq, y_sq), 8)), fmul(y, fmul(y_sq, 8)))
}

/// Addition of the affine points `(x1, y1)` and `(x2, y2)`, `x1 != x2`, into
/// projective coordinates: with `u = y2 - y1`, `v = x2 - x1` and
/// `a = u^2 - v^3 - 2 v^2 x1`, the point `(v a, u (v^2 x1 - a) - v^3 y1, v^3)`.
pub open spec fn add_proj_spec(x1: nat, y1: nat, x2: nat, y2: nat) -> (nat, nat, nat) {
    let u = fsub(y2, y1);
    let v = fsub(x2, x1);
    let vsq = fmul(v, v);
    let vcb = fmul(vsq, v);
    let a = fsub(fsub(fmul(u, u), vcb), fmul(vsq, fmul(x1, 2)));
    (fmul(v, a), fsub(fmul(u, fsub(fmul(vsq, x1), a)), fmul(vcb, y1)), vcb)
}

/// Doubles an affine point into projective coordinates.
pub fn double_proj(pt: (Fe, Fe)) -> (r: (Fe, Fe, Fe))
    ensures
        (r.0.val(), r.1.val(), r.2.val()) == double_proj_spec(pt.0.val(), pt.1.val()),
{
    let x = pt.0;
    let y = pt.1;
    let y_sq = y.square();
    let w = x.square().scale(3);
    let b = x.mul(&y_sq);
    let h = w.square().sub(&b.scale(8));
    (h.mul(&y.scale(2)), w.mul(&b.scale(4).sub(&h)).sub(&y_sq.square().scale(8)), y.mul(&y_sq.scale(8)))
}

/// Adds two affine points with different abscissae into projective
/// coordinates.
pub fn add_proj(pt1: (Fe, Fe), pt2: (Fe, Fe)) -> (r: (Fe, Fe, Fe))
    ensures
        (r.0.val(), r.1.val(), r.2.val()) == add_proj_spec(pt1.0.val(), pt1.1.val(), pt2.0.val(), pt2.1.val()),
{
    let u1 = pt2.1;
    let u2 = pt1.1;
    let v1 = pt2.0;
    let v2 = pt1.0;
    let u = u1.sub(&u2);
    let v = v1.sub(&v2);
    let vsq = v.square();
    let vcb = vsq.mul(&v);
    let a = u.square().sub(&vcb).sub(&vsq.mul(&v2.scale(2)));
    (v.mul(&a), u.mul(&vsq.mul(&v2).sub(&a)).sub(&vcb.mul(&u2)), vcb)
}


/// The curve `y^2 = x^3 + a x + b`.
#[derive(Clone, Copy)]
pub struct Curve {
    pub a: Fe,
    pub b: Fe,
}

/// A nonzero point of a curve, held by two variables.
#[derive(Clone, Copy)]
pub struct EcAffinePoint {
    pub x: Variable,
    pub y: Variable,
    pub curve: Curve,
}

/// The kind of gate that puts `(x, y)` on the curve.
pub open spec fn on_curve_kind(c: Curve) -> GateKind {
    GateKind::OnCurve { a: c.a, b: c.b }
}

impl EcAffinePoint {
    /// The point of the two variables, with no check.
    pub fn new_unchecked(x: Variable, y: Variable, curve: Curve) -> (r: Self)
        ensures
            r.x == x,
            r.y == y,
            r.curve == curve,
    {
        EcAffinePoint { x, y, curve }
    }

    /// The point of the two variables, constrained to lie on the curve.
    pub fn new(circuit: &mut Circuit, x: Variable, y: Variable, curve: Curve) -> (r: Self)
        requires
            old(circuit).wf(),
            old(circuit).has_var(x),
            old(circuit).has_var(y),
            old(circuit).rhs_room(1),
        ensures
            final(circuit).wf(),
            final(circuit).extends(old(circuit)),
            final(circuit).grew(old(circuit), 1),
            final(circuit).ops_view() == old(circuit).ops_view(),
            final(circuit).cs.wspec() == old(circuit).cs.wspec(),
            r.x == x,
            r.y == y,
            r.curve == curve,
            has_gate(final(circuit).cs.all_constraints(), on_curve_kind(curve), seq![x, y]),
    {
        let io = vec![x, y];
        proof {
            assert(io@ =~= seq![x, y]);
        }
        circuit.constrain(io.as_slice(), LibGate::new(GateKind::OnCurve { a: curve.a, b: curve.b }));
        EcAffinePoint { x, y, curve }
    }
}

/// Checks that `pt1`, `pt2` and `-pt3` lie on one line, and pushes to
/// `nonzeros` a new variable of `round`, `(x1 - x2)(x1 - x3)(x2 - x3)`,
/// which is nonzero when the three are distinct.
#[verifier::spinoff_prover]
pub fn eclin_gadget(
    circuit: &mut Circuit,
    pt1: EcAffinePoint,
    pt2: EcAffinePoint,
    pt3: EcAffinePoint,
    nonzeros: &mut Vec<Variable>,
    round: usize,
)
    requires
        old(circuit).wf(),
        round < old(circuit).rounds(),
        3 <= old(circuit).max_deg(),
        old(circuit).has_var(pt1.x) && old(circuit).has_var(pt1.y),
        old(circuit).has_var(pt2.x) && old(circuit).has_var(pt2.y),
        old(circuit).has_var(pt3.x) && old(circuit).has_var(pt3.y),
        pt1.x.round <= round && pt2.x.round <= round && pt3.x.round <= round,
        old(circuit).room(2),
    ensures
        final(circuit).grown(old(circuit), 2),
        has_gate(
            final(circuit).cs.all_constraints(),
            GateKind::Collinear,
            seq![pt1.x, pt1.y, pt2.x, pt2.y, pt3.x, pt3.y],
        ),
        final(nonzeros)@.len() == old(nonzeros)@.len() + 1,
        final(nonzeros)@.drop_last() == old(nonzeros)@,
        final(circuit).fresh(old(circuit), seq![final(nonzeros)@.last()], round as nat, Visibility::Private),
        pushed(final(circuit).ops_view(), old(circuit).ops_view(), round as int),
        is_poly(
            final(circuit).ops_view()[round as int].last(),
            seq![pt1.x, pt2.x, pt3.x],
            seq![final(nonzeros)@.last()],
            PolyKind::DistinctX3,
        ),
        has_gate(
            final(circuit).cs.all_constraints(),
            GateKind::Applied { poly: PolyKind::DistinctX3 },
            seq![pt1.x, pt2.x, pt3.x, final(nonzeros)@.last()],
        ),
{
    let ghost c0 = *circuit;
    let pts = vec![pt1.x, pt1.y, pt2.x, pt2.y, pt3.x, pt3.y];
    proof {
        assert(pts@ =~= seq![pt1.x, pt1.y, pt2.x, pt2.y, pt3.x, pt3.y]);
        assert forall|a: int| 0 <= a < pts@.len() implies c0.has_var(#[trigger] pts@[a]) by {}
    }
    circuit.constrain(pts.as_slice(), LibGate::new(GateKind::Collinear));
    let ghost c1 = *circuit;
    proof {
        lemma_room_step(&c0, &c1, 1, 1);
    }
    let xs = vec![pt1.x, pt2.x, pt3.x];
    proof {
        assert(xs@ =~= seq![pt1.x, pt2.x, pt3.x]);
        assert forall|a: int| 0 <= a < xs@.len() implies c1.has_var(#[trigger] xs@[a]) && xs@[a].round <= round by {
            assert(c0.has_var(xs@[a]));
        }
    }
    let d = circuit.apply(round, PolyKind::DistinctX3, xs);
    proof {
        lemma_grown_trans(&c0, &c1, circuit, 1, 1);
        lemma_gate_kept(&c1, circuit, GateKind::Collinear, seq![pt1.x, pt1.y, pt2.x, pt2.y, pt3.x, pt3.y]);
        assert(circuit.fresh(&c1, d@, round as nat, Visibility::Private));
        assert forall|a: int| 0 <= a < d@.len() implies #[trigger] circuit.has_var(d@[a]) && !c0.has_var(d@[a]) by {
            assert(circuit.has_var(d@[a]) && !c1.has_var(d@[a]));
            if c0.has_var(d@[a]) {
                assert(c1.has_var(d@[a]));
            }
        }
        assert(d@ =~= seq![d@[0]]);
        assert(seq![pt1.x, pt2.x, pt3.x] + seq![d@[0]] =~= seq![pt1.x, pt2.x, pt3.x, d@[0]]);
    }
    nonzeros.push(d[0]);
    proof {
        assert(nonzeros@.drop_last() =~= old(nonzeros)@);
    }
}

/// Checks that the line through `pt1` and `-pt2` is tangent to the curve in
/// `pt1`, and pushes to `nonzeros` a new variable of `round`, `x1 - x2`,
/// which is nonzero when the two differ.
#[verifier::spinoff_prover]
pub fn ectangent_gadget(
    circuit: &mut Circuit,
    pt1: EcAffinePoint,
    pt2: EcAffinePoint,
    nonzeros: &mut Vec<Variable>,
    round: usize,
)
    requires
        old(circuit).wf(),
        round < old(circuit).rounds(),
        1 <= old(circuit).max_deg(),
        old(circuit).has_var(pt1.x) && old(circuit).has_var(pt1.y),
        old(circuit).has_var(pt2.x) && old(circuit).has_var(pt2.y),
        pt1.x.round <= round && pt2.x.round <= round,
        old(circuit).room(2),
    ensures
        final(circuit).grown(old(circuit), 2),
        has_gate(final(circuit).cs.all_constraints(), GateKind::Tangent, seq![pt1.x, pt1.y, pt2.x, pt2.y]),
        final(nonzeros)@.len() == old(nonzeros)@.len() + 1,
        final(nonzeros)@.drop_last() == old(nonzeros)@,
        final(circuit).fresh(old(circuit), seq![final(nonzeros)@.last()], round as nat, Visibility::Private),
        pushed(final(circuit).ops_view(), old(circuit).ops_view(), round as int),
        is_poly(
            final(circuit).ops_view()[round as int].last(),
            seq![pt1.x, pt2.x],
            seq![final(nonzeros)@.last()],
            PolyKind::Diff,
        ),
        has_gate(
            final(circuit).cs.all_constraints(),
            GateKind::Applied { poly: PolyKind::Diff },
            seq![pt1.x, pt2.x, final(nonzeros)@.last()],
        ),
{
    let ghost c0 = *circuit;
    let pts = vec![pt1.x, pt1.y, pt2.x, pt2.y];
    proof {
        assert(pts@ =~= seq![pt1.x, pt1.y, pt2.x, pt2.y]);
        assert forall|a: int| 0 <= a < pts@.len() implies c0.has_var(#[trigger] pts@[a]) by {}
    }
    circuit.constrain(pts.as_slice(), LibGate::new(GateKind::Tangent));
    let ghost c1 = *circuit;
    proof {
        lemma_room_step(&c0, &c1, 1, 1);
    }
    let xs = vec![pt1.x, pt2.x];
    proof {
        assert(xs@ =~= seq![pt1.x, pt2.x]);
        assert forall|a: int| 0 <= a < xs@.len() implies c1.has_var(#[trigger] xs@[a]) && xs@[a].round <= round by {
            assert(c0.has_var(xs@[a]));
        }
    }
    let d = circuit.apply(round, PolyKind::Diff, xs);
    proof {
        lemma_grown_trans(&c0, &c1, circuit, 1, 1);
        lemma_gate_kept(&c1, circuit, GateKind::Tangent, seq![pt1.x, pt1.y, pt2.x, pt2.y]);
        assert(circuit.fresh(&c1, d@, round as nat, Visibility::Private));
        assert forall|a: int| 0 <= a < d@.len() implies #[trigger] circuit.has_var(d@[a]) && !c0.has_var(d@[a]) by {
            assert(circuit.has_var(d@[a]) && !c1.has_var(d@[a]));
            if c0.has_var(d@[a]) {
                assert(c1.has_var(d@[a]));
            }
        }
        assert(d@ =~= seq![d@[0]]);
        assert(seq![pt1.x, pt2.x] + seq![d@[0]] =~= seq![pt1.x, pt2.x, d@[0]]);
    }
    nonzeros.push(d[0]);
    proof {
        assert(nonzeros@.drop_last() =~= old(nonzeros)@);
    }
}

/// The sum of two points: the prover gives it as advice, it is constrained
/// to lie on the curve of `pt1`, and `eclin_gadget` checks `pt1`, `pt2` and
/// its negation collinear and the three distinct.
pub fn ecadd_gadget(
    circuit: &mut Circuit,
    pt1: EcAffinePoint,
    pt2: EcAffinePoint,
    nonzeros: &mut Vec<Variable>,
    round: usize,
) -> (r: EcAffinePoint)
    requires
        old(circuit).wf(),
        round < old(circuit).rounds(),
        3 <= old(circuit).max_deg(),
        old(circuit).has_var(pt1.x) && old(circuit).has_var(pt1.y),
        old(circuit).has_var(pt2.x) && old(circuit).has_var(pt2.y),
        pt1.x.round <= round && pt1.y.round <= round && pt2.x.round <= round && pt2.y.round <= round,
        old(circuit).room(5),
    ensures
        final(circuit).grown(old(circuit), 5),
        r.curve == pt1.curve,
        final(circuit).fresh(old(circuit), seq![r.x, r.y], round as nat, Visibility::Private),
        is_advice(
            final(circuit).ops_view()[round as int][old(circuit).ops_view()[round as int].len() as int],
            seq![pt1.x, pt1.y, pt2.x, pt2.y],
            seq![r.x, r.y],
            AdviceKind::EcAdd,
        ),
        has_gate(final(circuit).cs.all_constraints(), on_curve_kind(pt1.curve), seq![r.x, r.y]),
        has_gate(
            final(circuit).cs.all_constraints(),
            GateKind::Collinear,
            seq![pt1.x, pt1.y, pt2.x, pt2.y, r.x, r.y],
        ),
        final(nonzeros)@.len() == old(nonzeros)@.len() + 1,
        final(nonzeros)@.drop_last() == old(nonzeros)@,
        final(circuit).has_var(final(nonzeros)@.last()),
        has_gate(
            final(circuit).cs.all_constraints(),
            GateKind::Applied { poly: PolyKind::DistinctX3 },
            seq![pt1.x, pt2.x, r.x, final(nonzeros)@.last()],
        ),
{
    let ghost c0 = *circuit;
    let input = vec![pt1.x, pt1.y, pt2.x, pt2.y];
    proof {
        assert(input@ =~= seq![pt1.x, pt1.y, pt2.x, pt2.y]);
        assert forall|a: int| 0 <= a < input@.len() implies c0.has_var(#[trigger] input@[a]) && input@[a].round <= round by {}
    }
    let tmp = circuit.advice(round, AdviceKind::EcAdd, input);
    let ghost c1 = *circuit;
    proof {
        lemma_room_step(&c0, &c1, 2, 3);
        assert(tmp@ =~= seq![tmp@[0], tmp@[1]]);
        assert(c1.has_var(tmp@[0]) && c1.has_var(tmp@[1]));
    }
    let pt3 = EcAffinePoint::new(circuit, tmp[0], tmp[1], pt1.curve);
    let ghost c2 = *circuit;
    proof {
        lemma_room_step(&c1, &c2, 1, 2);
        assert(c2.grown(&c1, 1));
        lemma_grown_trans(&c0, &c1, &c2, 2, 1);
    }
    eclin_gadget(circuit, pt1, pt2, pt3, nonzeros, round);
    proof {
        assert(circuit.has_var(seq![nonzeros@.last()][0]));
        lemma_grown_trans(&c0, &c2, circuit, 3, 2);
        lemma_gate_kept(&c2, circuit, on_curve_kind(pt1.curve), seq![pt3.x, pt3.y]);
        lemma_fresh_kept(&c0, &c1, circuit, seq![pt3.x, pt3.y], round as nat, Visibility::Private);
        crate::circuit::lemma_extends_trans(&c1, &c2, circuit);
        assert(circuit.ops_view()[round as int][c0.ops_view()[round as int].len() as int]
            == c1.ops_view()[round as int][c0.ops_view()[round as int].len() as int]);
    }
    pt3
}

/// Twice a point: the prover gives it as advice, it is constrained to lie on
/// the curve of `pt`, and `ectangent_gadget` checks the tangent in `pt`
/// through its negation and the two distinct.
pub fn ecdouble_gadget(circuit: &mut Circuit, pt: EcAffinePoint, nonzeros: &mut Vec<Variable>, round: usize) -> (r: EcAffinePoint)
    requires
        old(circuit).wf(),
        round < old(circuit).rounds(),
        1 <= old(circuit).max_deg(),
        old(circuit).has_var(pt.x) && old(circuit).has_var(pt.y),
        pt.x.round <= round && pt.y.round <= round,
        old(circuit).room(5),
    ensures
        final(circuit).grown(old(circuit), 5),
        r.curve == pt.curve,
        final(circuit).fresh(old(circuit), seq![r.x, r.y], round as nat, Visibility::Private),
        is_advice(
            final(circuit).ops_view()[round as int][old(circuit).ops_view()[round as int].len() as int],
            seq![pt.x, pt.y],
            seq![r.x, r.y],
            AdviceKind::EcDouble,
        ),
        has_gate(final(circuit).cs.all_constraints(), on_curve_kind(pt.curve), seq![r.x, r.y]),
        has_gate(final(circuit).cs.all_constraints(), GateKind::Tangent, seq![pt.x, pt.y, r.x, r.y]),
        final(nonzeros)@.len() == old(nonzeros)@.len() + 1,
        final(nonzeros)@.drop_last() == old(nonzeros)@,
        final(circuit).has_var(final(nonzeros)@.last()),
        has_gate(
            final(circuit).cs.all_constraints(),
            GateKind::Applied { poly: PolyKind::Diff },
            seq![pt.x, r.x, final(nonzeros)@.last()],
        ),
{
    let ghost c0 = *circuit;
    let input = vec![pt.x, pt.y];
    proof {
        assert(input@ =~= seq![pt.x, pt.y]);
        assert forall|a: int| 0 <= a < input@.len() implies c0.has_var(#[trigger] input@[a]) && input@[a].round <= round by {}
    }
    let tmp = circuit.advice(round, AdviceKind::EcDouble, input);
    let ghost c1 = *circuit;
    proof {
        lemma_room_step(&c0, &c1, 2, 3);
        assert(tmp@ =~= seq![tmp@[0], tmp@[1]]);
        assert(c1.has_var(tmp@[0]) && c1.has_var(tmp@[1]));
    }
    let pt2 = EcAffinePoint::new(circuit, tmp[0], tmp[1], pt.curve);
    let ghost c2 = *circuit;
    proof {
        lemma_room_step(&c1, &c2, 1, 2);
        assert(c2.grown(&c1, 1));
        lemma_grown_trans(&c0, &c1, &c2, 2, 1);
    }
    ectangent_gadget(circuit, pt, pt2, nonzeros, round);
    proof {
        assert(circuit.has_var(seq![nonzeros@.last()][0]));
        lemma_grown_trans(&c0, &c2, circuit, 3, 2);
        lemma_gate_kept(&c2, circuit, on_curve_kind(pt.curve), seq![pt2.x, pt2.y]);
        lemma_fresh_kept(&c0, &c1, circuit, seq![pt2.x, pt2.y], round as nat, Visibility::Private);
        crate::circuit::lemma_extends_trans(&c1, &c2, circuit);
        assert(circuit.ops_view()[round as int][c0.ops_view()[round as int].len() as int]
            == c1.ops_view()[round as int][c0.ops_view()[round as int].len() as int]);
    }
    pt2
}


/// Projective coordinates `(X, Y, Z)` as the affine point `(X / Z, Y / Z)`,
/// zero for `Z == 0`.
pub open spec fn aff(p: (nat, nat, nat)) -> (nat, nat) {
    (fmul(p.0, finv(p.2)), fmul(p.1, finv(p.2)))
}

/// The sum of two affine points by the projective formula.
#[verifier::opaque]
pub open spec fn aff_add(p: (nat, nat), q: (nat, nat)) -> (nat, nat) {
    aff(add_proj_spec(p.0, p.1, q.0, q.1))
}

/// Twice an affine point by the projective formula.
#[verifier::opaque]
pub open spec fn aff_double(p: (nat, nat)) -> (nat, nat) {
    aff(double_proj_spec(p.0, p.1))
}

/// Three times an affine point: its double, plus it.
pub open spec fn aff_triple(p: (nat, nat)) -> (nat, nat) {
    aff_add(aff_double(p), p)
}

/// The point of limb `i` among the inputs `(x_0, y_0, x_1, y_1, ...)`.
pub open spec fn sm_pt(x: Seq<nat>, i: int) -> (nat, nat) {
    (x[2 * i], x[2 * i + 1])
}

/// The accumulator after `i` steps of the base-9 multiplication of `n`
/// limbs: the point of the last limb, then, at each step, nine times the
/// accumulator plus the point of the next limb down.
pub open spec fn sm_acc(x: Seq<nat>, n: nat, i: nat) -> (nat, nat)
    decreases i,
{
    if i == 0 {
        sm_pt(x, n - 1)
    } else {
        aff_add(sm_pt(x, n - 1 - i), aff_triple(aff_triple(sm_acc(x, n, (i - 1) as nat))))
    }
}

/// `Z(B - A) / Z(2 A)`: the factor by which the projective `2 A` is scaled
/// to equal the projective `B - A` when `B = 3 A`.
#[verifier::opaque]
pub open spec fn triple_scale(a: (nat, nat), b: (nat, nat)) -> nat {
    fmul(add_proj_spec(b.0, b.1, a.0, fsub(0, a.1)).2, finv(double_proj_spec(a.0, a.1).2))
}

/// A coordinate of a point: `x` for 0, `y` otherwise.
pub open spec fn coord(p: (nat, nat), k: int) -> nat {
    if k == 0 {
        p.0
    } else {
        p.1
    }
}

/// What the base-9 multiplication advice gives for `n` limbs: the
/// accumulators after each step, three and nine times those before it,
/// and the scale factors of the two triplings of each step.
pub open spec fn sm_out(x: Seq<nat>, n: nat) -> Seq<nat> {
    let m = (n - 1) as nat;
    Seq::new(2 * m, |j: int| coord(sm_acc(x, n, (j / 2 + 1) as nat), j % 2))
        + Seq::new(2 * m, |j: int| coord(aff_triple(sm_acc(x, n, (j / 2) as nat)), j % 2))
        + Seq::new(2 * m, |j: int| coord(aff_triple(aff_triple(sm_acc(x, n, (j / 2) as nat))), j % 2))
        + Seq::new(m, |j: int| triple_scale(sm_acc(x, n, j as nat), aff_triple(sm_acc(x, n, j as nat))))
        + Seq::new(m, |j: int| triple_scale(aff_triple(sm_acc(x, n, j as nat)), aff_triple(aff_triple(sm_acc(x, n, j as nat)))))
}

/// The inverse, or zero for zero.
fn inv_or_zero(z: Fe) -> (r: Fe)
    ensures
        r.val() == finv(z.val()),
{
    match z.invert() {
        Some(y) => {
            proof {
                z.lemma_val_lt();
                y.lemma_val_lt();
                crate::field::lemma_finv_unique(z.val(), y.val());
            }
            y
        },
        None => {
            proof {
                assert forall|b: nat| b < field_modulus() implies !#[trigger] is_inverse(0, b) by {
                    assert(fmul(0, b) == 0);
                }
            }
            Fe::zero()
        },
    }
}

fn aff_exec(p: (Fe, Fe, Fe)) -> (r: (Fe, Fe))
    ensures
        (r.0.val(), r.1.val()) == aff((p.0.val(), p.1.val(), p.2.val())),
{
    let zi = inv_or_zero(p.2);
    (p.0.mul(&zi), p.1.mul(&zi))
}

fn aff_add_exec(p: (Fe, Fe), q: (Fe, Fe)) -> (r: (Fe, Fe))
    ensures
        (r.0.val(), r.1.val()) == aff_add((p.0.val(), p.1.val()), (q.0.val(), q.1.val())),
{
    proof {
        reveal(aff_add);
    }
    aff_exec(add_proj(p, q))
}

fn aff_triple_exec(p: (Fe, Fe)) -> (r: (Fe, Fe))
    ensures
        (r.0.val(), r.1.val()) == aff_triple((p.0.val(), p.1.val())),
{
    let d = aff_exec(double_proj(p));
    proof {
        reveal(aff_double);
    }
    aff_add_exec(d, p)
}

fn triple_scale_exec(a: (Fe, Fe), b: (Fe, Fe)) -> (r: Fe)
    ensures
        r.val() == triple_scale((a.0.val(), a.1.val()), (b.0.val(), b.1.val())),
{
    let neg = (a.0, Fe::zero().sub(&a.1));
    let num = add_proj(b, neg).2;
    let den = double_proj(a).2;
    proof {
        reveal(triple_scale);
    }
    num.mul(&inv_or_zero(den))
}

/// The base-9 multiplication advice on the points of `n` limbs.
pub fn scalarmul_steps(x: &[Fe], n: usize) -> (r: Vec<Fe>)
    requires
        n >= 1,
        x@.len() == 2 * n,
        8 * (n - 1) <= usize::MAX,
    ensures
        vals(r@) == sm_out(vals(x@), n as nat),
        r@.len() == 8 * (n - 1),
{
    let ghost xs = vals(x@);
    let ghost m = (n - 1) as nat;
    let mut accs: Vec<Fe> = Vec::new();
    let mut x3s: Vec<Fe> = Vec::new();
    let mut x9s: Vec<Fe> = Vec::new();
    let mut s3: Vec<Fe> = Vec::new();
    let mut s9: Vec<Fe> = Vec::new();
    let mut acc = (x[2 * n - 2], x[2 * n - 1]);
    let mut i: usize = 0;
    proof {
        assert((acc.0.val(), acc.1.val()) == sm_acc(xs, n as nat, 0));
    }
    while i < n - 1
        invariant
            n >= 1,
            x@.len() == 2 * n,
            xs == vals(x@),
            m == n - 1,
            i <= m,
            (acc.0.val(), acc.1.val()) == sm_acc(xs, n as nat, i as nat),
            accs@.len() == 2 * i,
            x3s@.len() == 2 * i,
            x9s@.len() == 2 * i,
            s3@.len() == i,
            s9@.len() == i,
            forall|j: int| 0 <= j < 2 * i ==> (#[trigger] accs@[j]).val() == coord(sm_acc(xs, n as nat, (j / 2 + 1) as nat), j % 2),
            forall|j: int| 0 <= j < 2 * i ==> (#[trigger] x3s@[j]).val() == coord(aff_triple(sm_acc(xs, n as nat, (j / 2) as nat)), j % 2),
            forall|j: int| 0 <= j < 2 * i ==> (#[trigger] x9s@[j]).val() == coord(aff_triple(aff_triple(sm_acc(xs, n as nat, (j / 2) as nat))), j % 2),
            forall|j: int| 0 <= j < i ==> (#[trigger] s3@[j]).val() == triple_scale(sm_acc(xs, n as nat, j as nat), aff_triple(sm_acc(xs, n as nat, j as nat))),
            forall|j: int| 0 <= j < i ==> (#[trigger] s9@[j]).val() == triple_scale(aff_triple(sm_acc(xs, n as nat, j as nat)), aff_triple(aff_triple(sm_acc(xs, n as nat, j as nat)))),
        decreases m - i,
    {
        let ghost a = sm_acc(xs, n as nat, i as nat);
        let t3 = aff_triple_exec(acc);
        let t9 = aff_triple_exec(t3);
        s3.push(triple_scale_exec(acc, t3));
        s9.push(triple_scale_exec(t3, t9));
        x3s.push(t3.0);
        x3s.push(t3.1);
        x9s.push(t9.0);
        x9s.push(t9.1);
        let k = n - 2 - i;
        let xl = x.len();
        proof {
            assert(2 * k + 1 < xl);
        }
        let p = (x[2 * k], x[2 * k + 1]);
        let next = aff_add_exec(p, t9);
        proof {
            assert((p.0.val(), p.1.val()) == sm_pt(xs, (n - 1 - (i + 1)) as int));
            assert((next.0.val(), next.1.val()) == sm_acc(xs, n as nat, (i + 1) as nat));
        }
        accs.push(next.0);
        accs.push(next.1);
        acc = next;
        proof {
            assert forall|j: int| 0 <= j < 2 * (i + 1) implies (#[trigger] accs@[j]).val() == coord(sm_acc(xs, n as nat, (j / 2 + 1) as nat), j % 2) by {
                if j >= 2 * i {
                    assert(j / 2 == i);
                }
            }
            assert forall|j: int| 0 <= j < 2 * (i + 1) implies (#[trigger] x3s@[j]).val() == coord(aff_triple(sm_acc(xs, n as nat, (j / 2) as nat)), j % 2) by {
                if j >= 2 * i {
                    assert(j / 2 == i);
                }
            }
            assert forall|j: int| 0 <= j < 2 * (i + 1) implies (#[trigger] x9s@[j]).val() == coord(aff_triple(aff_triple(sm_acc(xs, n as nat, (j / 2) as nat))), j % 2) by {
                if j >= 2 * i {
                    assert(j / 2 == i);
                }
            }
        }
        i = i + 1;
    }
    let mut out: Vec<Fe> = Vec::new();
    out.append(&mut accs);
    out.append(&mut x3s);
    out.append(&mut x9s);
    out.append(&mut s3);
    out.append(&mut s9);
    proof {
        let a1 = Seq::new(2 * m, |j: int| coord(sm_acc(xs, n as nat, (j / 2 + 1) as nat), j % 2));
        let a2 = Seq::new(2 * m, |j: int| coord(aff_triple(sm_acc(xs, n as nat, (j / 2) as nat)), j % 2));
        let a3 = Seq::new(2 * m, |j: int| coord(aff_triple(aff_triple(sm_acc(xs, n as nat, (j / 2) as nat))), j % 2));
        let a4 = Seq::new(m, |j: int| triple_scale(sm_acc(xs, n as nat, j as nat), aff_triple(sm_acc(xs, n as nat, j as nat))));
        let a5 = Seq::new(m, |j: int| triple_scale(aff_triple(sm_acc(xs, n as nat, j as nat)), aff_triple(aff_triple(sm_acc(xs, n as nat, j as nat)))));
        assert(vals(out@) =~= a1 + a2 + a3 + a4 + a5) by {
            assert forall|j: int| 0 <= j < out@.len() implies #[trigger] vals(out@)[j] == (a1 + a2 + a3 + a4 + a5)[j] by {
                let b = 2 * m;
                if j < b {
                } else if j < 2 * b {
                } else if j < 3 * b {
                } else if j < 3 * b + m {
                } else {
                }
            }
        }
    }
    out
}


/// The variables are in the circuit, of rounds up to `round`.
pub open spec fn vars_in(c: &Circuit, s: Seq<Variable>, round: nat) -> bool {
    forall|j: int| 0 <= j < s.len() ==> c.has_var(#[trigger] s[j]) && s[j].round <= round
}

/// Variables stay in a circuit that grows.
pub proof fn lemma_vars_kept(before: &Circuit, after: &Circuit, s: Seq<Variable>, round: nat)
    requires
        vars_in(before, s, round),
        after.extends(before),
    ensures
        vars_in(after, s, round),
{
    assert forall|j: int| 0 <= j < s.len() implies after.has_var(#[trigger] s[j]) && s[j].round <= round by {
        assert(before.has_var(s[j]));
    }
}

/// The list grew by `k` entries at its end.
pub open spec fn appended(after: Seq<Variable>, before: Seq<Variable>, k: nat) -> bool {
    after.len() == before.len() + k && after.subrange(0, before.len() as int) == before
}

/// The list grew by `k` entries at its end, all of them in the circuit.
pub open spec fn appended_vars(c: &Circuit, after: Seq<Variable>, before: Seq<Variable>, k: nat) -> bool {
    &&& appended(after, before, k)
    &&& forall|j: int| before.len() <= j < after.len() ==> c.has_var(#[trigger] after[j])
}

/// Entries appended in two steps, in a circuit that grew in between.
pub proof fn lemma_appended_vars_trans(
    c1: &Circuit,
    c2: &Circuit,
    a: Seq<Variable>,
    b: Seq<Variable>,
    c: Seq<Variable>,
    k1: nat,
    k2: nat,
)
    requires
        appended_vars(c1, b, a, k1),
        c2.extends(c1),
        appended(c, b, k2),
        forall|j: int| b.len() <= j < c.len() ==> c2.has_var(#[trigger] c[j]),
    ensures
        appended_vars(c2, c, a, k1 + k2),
{
    assert(c.subrange(0, a.len() as int) =~= b.subrange(0, a.len() as int));
    assert forall|j: int| a.len() <= j < c.len() implies c2.has_var(#[trigger] c[j]) by {
        if j < b.len() {
            assert(c.subrange(0, b.len() as int)[j] == c[j]);
            assert(c1.has_var(b[j]));
        }
    }
}

/// The gates of the table of multiples `pre[k] = a + k pt`: `pre[0]` is
/// `a`, and each next entry is on the curve of `a` and collinear with the
/// entry before it and `pt` (negated), as `ecadd_gadget` checks a sum.
pub open spec fn sm_table_gates(
    cs: Seq<crate::constraint_system::Constraint<LibGate>>,
    pre: Seq<Vec<Variable>>,
    a: EcAffinePoint,
    pt: EcAffinePoint,
) -> bool {
    &&& pre.len() == 9
    &&& forall|k: int| 0 <= k < 9 ==> (#[trigger] pre[k])@.len() == 2
    &&& pre[0]@ == seq![a.x, a.y]
    &&& forall|k: int| 0 <= k < 8 ==> #[trigger] table_step(cs, pre, a, pt, k)
}

/// Entry `k + 1` of the table is the sum of entry `k` and `pt`.
pub open spec fn table_step(
    cs: Seq<crate::constraint_system::Constraint<LibGate>>,
    pre: Seq<Vec<Variable>>,
    a: EcAffinePoint,
    pt: EcAffinePoint,
    k: int,
) -> bool {
    &&& has_gate(cs, GateKind::Collinear, seq![pre[k]@[0], pre[k]@[1], pt.x, pt.y, pre[k + 1]@[0], pre[k + 1]@[1]])
    &&& has_gate(cs, on_curve_kind(a.curve), seq![pre[k + 1]@[0], pre[k + 1]@[1]])
}

proof fn lemma_table_step_kept(
    before: &Circuit,
    after: &Circuit,
    pre: Seq<Vec<Variable>>,
    a: EcAffinePoint,
    pt: EcAffinePoint,
    k: int,
)
    requires
        after.extends(before),
        table_step(before.cs.all_constraints(), pre, a, pt, k),
    ensures
        table_step(after.cs.all_constraints(), pre, a, pt, k),
{
    lemma_gate_kept(before, after, GateKind::Collinear, seq![pre[k]@[0], pre[k]@[1], pt.x, pt.y, pre[k + 1]@[0], pre[k + 1]@[1]]);
    lemma_gate_kept(before, after, on_curve_kind(a.curve), seq![pre[k + 1]@[0], pre[k + 1]@[1]]);
}

/// `a`, `a + pt`, ..., `a + 8 pt` as lists `[x, y]`, each sum by
/// `ecadd_gadget`.
fn precompute_multiples(circuit: &mut Circuit, a: EcAffinePoint, pt: EcAffinePoint, nonzeros: &mut Vec<Variable>, round: usize) -> (r: Vec<Vec<Variable>>)
    requires
        old(circuit).wf(),
        round < old(circuit).rounds(),
        3 <= old(circuit).max_deg(),
        vars_in(old(circuit), seq![a.x, a.y, pt.x, pt.y], round as nat),
        old(circuit).room(40),
    ensures
        final(circuit).grown(old(circuit), 40),
        r@.len() == 9,
        forall|i: int| 0 <= i < 9 ==> (#[trigger] r@[i])@.len() == 2,
        forall|i: int| 0 <= i < 9 ==> vars_in(final(circuit), (#[trigger] r@[i])@, round as nat),
        appended_vars(final(circuit), final(nonzeros)@, old(nonzeros)@, 8),
        sm_table_gates(final(circuit).cs.all_constraints(), r@, a, pt),
{
    let ghost c0 = *circuit;
    let mut pre: Vec<Vec<Variable>> = Vec::new();
    pre.push(vec![a.x, a.y]);
    let mut curr = a;
    let mut j: usize = 1;
    proof {
        lemma_extends_refl(circuit);
        assert(nonzeros@.subrange(0, old(nonzeros)@.len() as int) =~= old(nonzeros)@);
        assert(vars_in(circuit, pre@[0]@, round as nat)) by {
            assert(pre@[0]@ =~= seq![a.x, a.y]);
            assert(circuit.has_var(seq![a.x, a.y, pt.x, pt.y][0]));
            assert(circuit.has_var(seq![a.x, a.y, pt.x, pt.y][1]));
        }
    }
    while j < 9
        invariant
            1 <= j <= 9,
            circuit.grown(&c0, (5 * (j - 1)) as nat),
            circuit.rounds() == c0.rounds(),
            round < c0.rounds(),
            3 <= c0.max_deg(),
            c0.room(40),
            vars_in(&c0, seq![a.x, a.y, pt.x, pt.y], round as nat),
            vars_in(circuit, seq![curr.x, curr.y], round as nat),
            pre@.len() == j,
            forall|i: int| 0 <= i < j ==> (#[trigger] pre@[i])@.len() == 2,
            forall|i: int| 0 <= i < j ==> vars_in(circuit, (#[trigger] pre@[i])@, round as nat),
            appended_vars(circuit, nonzeros@, old(nonzeros)@, (j - 1) as nat),
            pre@[0]@ == seq![a.x, a.y],
            curr.curve == a.curve,
            curr.x == pre@[j - 1]@[0] && curr.y == pre@[j - 1]@[1],
            forall|k: int| 0 <= k < j - 1 ==> #[trigger] table_step(circuit.cs.all_constraints(), pre@, a, pt, k),
        decreases 9 - j,
    {
        let ghost prev = *circuit;
        let ghost nzp = nonzeros@;
        proof {
            lemma_room_step(&c0, &prev, (5 * (j - 1)) as nat, (40 - 5 * (j - 1)) as nat);
            lemma_vars_kept(&c0, &prev, seq![a.x, a.y, pt.x, pt.y], round as nat);
            assert(prev.has_var(seq![a.x, a.y, pt.x, pt.y][2]) && prev.has_var(seq![a.x, a.y, pt.x, pt.y][3]));
            assert(prev.has_var(seq![curr.x, curr.y][0]) && prev.has_var(seq![curr.x, curr.y][1]));
            assert(seq![a.x, a.y, pt.x, pt.y][2].round <= round && seq![a.x, a.y, pt.x, pt.y][3].round <= round);
            assert(seq![curr.x, curr.y][0].round <= round && seq![curr.x, curr.y][1].round <= round);
            assert(prev.room(5)) by {
                lemma_room_step(&prev, &prev, 0, 5);
            }
        }
        let ghost pre0 = pre@;
        let ghost prevpt = curr;
        curr = ecadd_gadget(circuit, curr, pt, nonzeros, round);
        let xy = vec![curr.x, curr.y];
        pre.push(xy);
        proof {
            lemma_grown_trans(&c0, &prev, circuit, (5 * (j - 1)) as nat, 5);
            assert(pre@[j as int]@ =~= seq![curr.x, curr.y]);
            assert forall|k: int| 0 <= k < j implies #[trigger] table_step(circuit.cs.all_constraints(), pre@, a, pt, k) by {
                assert(pre@[k] == pre0[k]);
                assert(pre@[k + 1] == if k + 1 < j { pre0[k + 1] } else { pre@[j as int] });
                if k < j - 1 {
                    assert(pre@[k + 1] == pre0[k + 1]);
                    assert(table_step(prev.cs.all_constraints(), pre0, a, pt, k));
                    assert(table_step(prev.cs.all_constraints(), pre@, a, pt, k));
                    lemma_table_step_kept(&prev, circuit, pre@, a, pt, k);
                } else {
                    assert(k == j - 1);
                    assert(pre@[k]@[0] == prevpt.x && pre@[k]@[1] == prevpt.y);
                    assert(pre@[k + 1]@[0] == curr.x && pre@[k + 1]@[1] == curr.y);
                }
            }
            assert forall|i: int| 0 <= i < j + 1 implies vars_in(circuit, (#[trigger] pre@[i])@, round as nat) by {
                if i < j {
                    lemma_vars_kept(&prev, circuit, pre@[i]@, round as nat);
                } else {
                    assert(pre@[i]@ =~= seq![curr.x, curr.y]);
                    assert(circuit.has_var(seq![curr.x, curr.y][0]) && circuit.has_var(seq![curr.x, curr.y][1]));
                }
            }
            assert(vars_in(circuit, seq![curr.x, curr.y], round as nat)) by {
                assert(circuit.has_var(seq![curr.x, curr.y][0]) && circuit.has_var(seq![curr.x, curr.y][1]));
            }
            assert(appended(nonzeros@, nzp, 1)) by {
                assert(nonzeros@.subrange(0, nzp.len() as int) =~= nonzeros@.drop_last());
            }
            assert(circuit.has_var(seq![nonzeros@.last()][0]));
            lemma_appended_vars_trans(&prev, circuit, old(nonzeros)@, nzp, nonzeros@, (j - 1) as nat, 1);
        }
        j = j + 1;
    }
    pre
}


/// For each limb `i`, the point `(pts[2 i], pts[2 i + 1])` is the entry of
/// the table that the limb selects, by a polynomial of the choice.
pub open spec fn sm_choice_gates(
    cs: Seq<crate::constraint_system::Constraint<LibGate>>,
    pre: Seq<Vec<Variable>>,
    limbs: Seq<Variable>,
    pts: Seq<Variable>,
) -> bool {
    forall|i: int| 0 <= i < limbs.len() ==> #[trigger] choice_step(cs, pre, limbs, pts, i)
}

/// The choice of limb `i`.
pub open spec fn choice_step(
    cs: Seq<crate::constraint_system::Constraint<LibGate>>,
    pre: Seq<Vec<Variable>>,
    limbs: Seq<Variable>,
    pts: Seq<Variable>,
    i: int,
) -> bool {
    has_gate(
        cs,
        GateKind::Applied { poly: PolyKind::Choice { n: 9, q: 2 } },
        crate::gadgets::range::flat(pre, 2) + seq![limbs[i]] + seq![pts[2 * i], pts[2 * i + 1]],
    )
}

proof fn lemma_choice_step_kept(
    before: &Circuit,
    after: &Circuit,
    pre: Seq<Vec<Variable>>,
    limbs: Seq<Variable>,
    pts: Seq<Variable>,
    i: int,
)
    requires
        after.extends(before),
        choice_step(before.cs.all_constraints(), pre, limbs, pts, i),
    ensures
        choice_step(after.cs.all_constraints(), pre, limbs, pts, i),
{
    lemma_gate_kept(
        before,
        after,
        GateKind::Applied { poly: PolyKind::Choice { n: 9, q: 2 } },
        crate::gadgets::range::flat(pre, 2) + seq![limbs[i]] + seq![pts[2 * i], pts[2 * i + 1]],
    );
}

/// For each limb, the multiple of the point that it selects, by
/// `choice_gadget`: the coordinates of all limbs in a row.
fn choose_limb_points(circuit: &mut Circuit, pre: &[Vec<Variable>], limbs: &[VarSmall], round: usize) -> (r: Vec<Variable>)
    requires
        old(circuit).wf(),
        round < old(circuit).rounds(),
        9 <= old(circuit).max_deg(),
        pre@.len() == 9,
        forall|i: int| 0 <= i < 9 ==> (#[trigger] pre@[i])@.len() == 2,
        forall|i: int| 0 <= i < 9 ==> vars_in(old(circuit), (#[trigger] pre@[i])@, round as nat),
        forall|i: int| 0 <= i < limbs@.len() ==> (#[trigger] limbs@[i]).range == 9,
        vars_in(old(circuit), small_vars(limbs@), round as nat),
        old(circuit).room(2 * limbs@.len()),
    ensures
        final(circuit).grown(old(circuit), 2 * limbs@.len()),
        r@.len() == 2 * limbs@.len(),
        vars_in(final(circuit), r@, round as nat),
        sm_choice_gates(final(circuit).cs.all_constraints(), pre@, small_vars(limbs@), r@),
{
    let ghost c0 = *circuit;
    let mut out: Vec<Variable> = Vec::new();
    let mut i: usize = 0;
    proof {
        lemma_extends_refl(circuit);
    }
    while i < limbs.len()
        invariant
            i <= limbs@.len(),
            circuit.grown(&c0, 2 * i as nat),
            circuit.rounds() == c0.rounds(),
            round < c0.rounds(),
            9 <= c0.max_deg(),
            c0.room(2 * limbs@.len()),
            pre@.len() == 9,
            forall|k: int| 0 <= k < 9 ==> (#[trigger] pre@[k])@.len() == 2,
            forall|k: int| 0 <= k < 9 ==> vars_in(&c0, (#[trigger] pre@[k])@, round as nat),
            forall|k: int| 0 <= k < limbs@.len() ==> (#[trigger] limbs@[k]).range == 9,
            vars_in(&c0, small_vars(limbs@), round as nat),
            out@.len() == 2 * i,
            vars_in(circuit, out@, round as nat),
            forall|j: int| 0 <= j < i ==> #[trigger] choice_step(circuit.cs.all_constraints(), pre@, small_vars(limbs@), out@, j),
        decreases limbs@.len() - i,
    {
        let ghost prev = *circuit;
        proof {
            lemma_room_step(&c0, &prev, 2 * i as nat, (2 * limbs@.len() - 2 * i) as nat);
            assert(prev.room(2)) by {
                lemma_room_step(&prev, &prev, 0, 2);
            }
            assert forall|k: int, j: int| 0 <= k < pre@.len() && 0 <= j < pre@[k]@.len() implies prev.has_var(
                #[trigger] pre@[k]@[j],
            ) && pre@[k]@[j].round <= round by {
                assert(vars_in(&c0, pre@[k]@, round as nat));
                assert(c0.has_var(pre@[k]@[j]));
            }
            assert(c0.has_var(small_vars(limbs@)[i as int]));
            assert(small_vars(limbs@)[i as int] == limbs@[i as int].var);
        }
        let ch = choice_gadget(circuit, pre, limbs[i], round);
        proof {
            lemma_grown_trans(&c0, &prev, circuit, 2 * i as nat, 2);
            lemma_vars_kept(&prev, circuit, out@, round as nat);
            assert(circuit.has_var(ch@[0]) && circuit.has_var(ch@[1]));
        }
        let ghost out0 = out@;
        out.push(ch[0]);
        out.push(ch[1]);
        proof {
            assert(ch@ =~= seq![ch@[0], ch@[1]]);
            assert(pre@[0]@.len() == 2);
            assert forall|j: int| 0 <= j < i + 1 implies #[trigger] choice_step(circuit.cs.all_constraints(), pre@, small_vars(limbs@), out@, j) by {
                assert(out@[2 * j] == if j < i { out0[2 * j] } else { ch@[0] });
                assert(out@[2 * j + 1] == if j < i { out0[2 * j + 1] } else { ch@[1] });
                if j < i {
                    assert(choice_step(prev.cs.all_constraints(), pre@, small_vars(limbs@), out0, j));
                    assert(seq![out0[2 * j], out0[2 * j + 1]] == seq![out@[2 * j], out@[2 * j + 1]]);
                    lemma_choice_step_kept(&prev, circuit, pre@, small_vars(limbs@), out@, j);
                } else {
                    assert(small_vars(limbs@)[j] == limbs@[j].var);
                    assert(seq![out@[2 * j], out@[2 * j + 1]] =~= ch@);
                }
            }
            assert forall|j: int| 0 <= j < out@.len() implies circuit.has_var(#[trigger] out@[j]) && out@[j].round <= round by {
                if j < 2 * i {
                    assert(vars_in(circuit, out@.subrange(0, 2 * i as int), round as nat) ==> circuit.has_var(out@[j]));
                }
            }
        }
        i = i + 1;
    }
    out
}


/// The accumulator of step `k` among the variables: the point of the last
/// limb for the first, then the accumulators that the advice gives.
pub open spec fn sm_acc_var(pts: Seq<Variable>, adv: Seq<Variable>, nl: nat, k: int) -> (Variable, Variable) {
    if k == 0 {
        (pts[2 * nl - 2], pts[2 * nl - 1])
    } else {
        (adv[2 * (k - 1)], adv[2 * (k - 1) + 1])
    }
}

/// The constraints of step `k` of the base-9 multiplication: the next
/// accumulator, three and nine times the current one are on the curve; the
/// two triplings are checked with their scale factors; and the next
/// accumulator, nine times the current one and the point of the next limb
/// down are checked collinear.
pub open spec fn sm_step_gates(
    cs: Seq<crate::constraint_system::Constraint<LibGate>>,
    pts: Seq<Variable>,
    adv: Seq<Variable>,
    nl: nat,
    k: int,
    curve: Curve,
) -> bool {
    let m = nl - 1;
    let acc = sm_acc_var(pts, adv, nl, k);
    let next = sm_acc_var(pts, adv, nl, k + 1);
    let x3 = (adv[2 * m + 2 * k], adv[2 * m + 2 * k + 1]);
    let x9 = (adv[4 * m + 2 * k], adv[4 * m + 2 * k + 1]);
    let p = (pts[2 * nl - 2 - 2 * (k + 1)], pts[2 * nl - 1 - 2 * (k + 1)]);
    &&& has_gate(cs, on_curve_kind(curve), seq![next.0, next.1])
    &&& has_gate(cs, on_curve_kind(curve), seq![x3.0, x3.1])
    &&& has_gate(cs, on_curve_kind(curve), seq![x9.0, x9.1])
    &&& has_gate(cs, GateKind::TripleCheck, seq![acc.0, acc.1, x3.0, x3.1, adv[6 * m + k]])
    &&& has_gate(cs, GateKind::TripleCheck, seq![x3.0, x3.1, x9.0, x9.1, adv[7 * m + k]])
    &&& has_gate(cs, GateKind::Collinear, seq![x9.0, x9.1, p.0, p.1, next.0, next.1])
}

pub proof fn lemma_step_gates_kept(before: &Circuit, after: &Circuit, pts: Seq<Variable>, adv: Seq<Variable>, nl: nat, k: int, curve: Curve)
    requires
        after.extends(before),
        sm_step_gates(before.cs.all_constraints(), pts, adv, nl, k, curve),
    ensures
        sm_step_gates(after.cs.all_constraints(), pts, adv, nl, k, curve),
{
    let m = nl - 1;
    let acc = sm_acc_var(pts, adv, nl, k);
    let next = sm_acc_var(pts, adv, nl, k + 1);
    let x3 = (adv[2 * m + 2 * k], adv[2 * m + 2 * k + 1]);
    let x9 = (adv[4 * m + 2 * k], adv[4 * m + 2 * k + 1]);
    let p = (pts[2 * nl - 2 - 2 * (k + 1)], pts[2 * nl - 1 - 2 * (k + 1)]);
    lemma_gate_kept(before, after, on_curve_kind(curve), seq![next.0, next.1]);
    lemma_gate_kept(before, after, on_curve_kind(curve), seq![x3.0, x3.1]);
    lemma_gate_kept(before, after, on_curve_kind(curve), seq![x9.0, x9.1]);
    lemma_gate_kept(before, after, GateKind::TripleCheck, seq![acc.0, acc.1, x3.0, x3.1, adv[6 * m + k]]);
    lemma_gate_kept(before, after, GateKind::TripleCheck, seq![x3.0, x3.1, x9.0, x9.1, adv[7 * m + k]]);
    lemma_gate_kept(before, after, GateKind::Collinear, seq![x9.0, x9.1, p.0, p.1, next.0, next.1]);
}

/// A gate of `TripleCheck` on the five variables.
fn triple_check(circuit: &mut Circuit, a: EcAffinePoint, b: EcAffinePoint, q: Variable)
    requires
        old(circuit).wf(),
        old(circuit).has_var(a.x) && old(circuit).has_var(a.y),
        old(circuit).has_var(b.x) && old(circuit).has_var(b.y),
        old(circuit).has_var(q),
        old(circuit).rhs_room(3),
    ensures
        final(circuit).wf(),
        final(circuit).extends(old(circuit)),
        final(circuit).grew(old(circuit), 3),
        final(circuit).ops_view() == old(circuit).ops_view(),
        final(circuit).cs.wspec() == old(circuit).cs.wspec(),
        has_gate(final(circuit).cs.all_constraints(), GateKind::TripleCheck, seq![a.x, a.y, b.x, b.y, q]),
{
    let io = vec![a.x, a.y, b.x, b.y, q];
    proof {
        assert(io@ =~= seq![a.x, a.y, b.x, b.y, q]);
        assert forall|j: int| 0 <= j < io@.len() implies old(circuit).has_var(#[trigger] io@[j]) by {}
    }
    circuit.constrain(io.as_slice(), LibGate::new(GateKind::TripleCheck));
}


/// The checks of the steps of the base-9 multiplication on the points of the
/// limbs `pts` and the advice `adv`; returns the last accumulator.
fn scalarmul_checks(
    circuit: &mut Circuit,
    pts: &[Variable],
    adv: &[Variable],
    nl: usize,
    curve: Curve,
    nonzeros: &mut Vec<Variable>,
    round: usize,
) -> (r: EcAffinePoint)
    requires
        old(circuit).wf(),
        round < old(circuit).rounds(),
        3 <= old(circuit).max_deg(),
        nl >= 1,
        pts@.len() == 2 * nl,
        adv@.len() == 8 * (nl - 1),
        vars_in(old(circuit), pts@, round as nat),
        vars_in(old(circuit), adv@, round as nat),
        old(circuit).room(11 * (nl - 1) as nat),
    ensures
        final(circuit).grown(old(circuit), 11 * (nl - 1) as nat),
        vars_in(final(circuit), seq![r.x, r.y], round as nat),
        (r.x, r.y) == sm_acc_var(pts@, adv@, nl as nat, nl - 1),
        r.curve == curve,
        appended_vars(final(circuit), final(nonzeros)@, old(nonzeros)@, 3 * (nl - 1) as nat),
        forall|k: int| 0 <= k < nl - 1 ==> #[trigger] sm_step_gates(final(circuit).cs.all_constraints(), pts@, adv@, nl as nat, k, curve),
{
    let ghost c0 = *circuit;
    let m = nl - 1;
    let mut acc = EcAffinePoint::new_unchecked(pts[2 * nl - 2], pts[2 * nl - 1], curve);
    let mut i: usize = 0;
    proof {
        lemma_extends_refl(circuit);
        assert(nonzeros@.subrange(0, old(nonzeros)@.len() as int) =~= old(nonzeros)@);
        assert(circuit.has_var(pts@[2 * nl - 2]) && circuit.has_var(pts@[2 * nl - 1]));
    }
    while i < m
        invariant
            m == nl - 1,
            i <= m,
            nl >= 1,
            pts@.len() == 2 * nl,
            adv@.len() == 8 * m,
            circuit.grown(&c0, 11 * i as nat),
            circuit.rounds() == c0.rounds(),
            round < c0.rounds(),
            3 <= c0.max_deg(),
            c0.room(11 * m as nat),
            vars_in(&c0, pts@, round as nat),
            vars_in(&c0, adv@, round as nat),
            acc.curve == curve,
            (acc.x, acc.y) == sm_acc_var(pts@, adv@, nl as nat, i as int),
            appended_vars(circuit, nonzeros@, old(nonzeros)@, 3 * i as nat),
            forall|k: int| 0 <= k < i ==> #[trigger] sm_step_gates(circuit.cs.all_constraints(), pts@, adv@, nl as nat, k, curve),
        decreases m - i,
    {
        let ghost cs0 = *circuit;
        let ghost nzp = nonzeros@;
        proof {
            lemma_room_step(&c0, &cs0, 11 * i as nat, (11 * m - 11 * i) as nat);
            assert(cs0.room(11)) by {
                lemma_room_step(&cs0, &cs0, 0, 11);
            }
            lemma_vars_kept(&c0, &cs0, pts@, round as nat);
            lemma_vars_kept(&c0, &cs0, adv@, round as nat);
            assert(cs0.has_var(adv@[2 * i as int]) && cs0.has_var(adv@[2 * i + 1]));
            assert(cs0.has_var(adv@[2 * m + 2 * i]) && cs0.has_var(adv@[2 * m + 2 * i + 1]));
            assert(cs0.has_var(adv@[4 * m + 2 * i]) && cs0.has_var(adv@[4 * m + 2 * i + 1]));
            assert(cs0.has_var(adv@[6 * m + i]) && cs0.has_var(adv@[7 * m + i]));
            assert(cs0.has_var(acc.x) && cs0.has_var(acc.y)) by {
                if i > 0 {
                    assert(cs0.has_var(adv@[2 * (i - 1)]) && cs0.has_var(adv@[2 * (i - 1) + 1]));
                } else {
                    assert(cs0.has_var(pts@[2 * nl - 2]) && cs0.has_var(pts@[2 * nl - 1]));
                }
            }
            let k = 2 * nl - 2 - 2 * (i + 1);
            assert(cs0.has_var(pts@[k]) && cs0.has_var(pts@[k + 1]));
            assert(pts@[k].round <= round && adv@[4 * m + 2 * i].round <= round && adv@[2 * i as int].round <= round);
        }
        let next = EcAffinePoint::new(circuit, adv[2 * i], adv[2 * i + 1], curve);
        let ghost c1 = *circuit;
        let x3 = EcAffinePoint::new(circuit, adv[2 * m + 2 * i], adv[2 * m + 2 * i + 1], curve);
        let ghost c2 = *circuit;
        let x9 = EcAffinePoint::new(circuit, adv[4 * m + 2 * i], adv[4 * m + 2 * i + 1], curve);
        let ghost c3 = *circuit;
        proof {
            lemma_room_step(&cs0, &c1, 1, 10);
            lemma_room_step(&c1, &c2, 1, 9);
            lemma_room_step(&c2, &c3, 1, 8);
        }
        triple_check(circuit, acc, x3, adv[6 * m + i]);
        let ghost c4 = *circuit;
        proof {
            lemma_room_step(&c3, &c4, 3, 5);
        }
        nonzeros.push(adv[6 * m + i]);
        triple_check(circuit, x3, x9, adv[7 * m + i]);
        let ghost c5 = *circuit;
        proof {
            lemma_room_step(&c4, &c5, 3, 2);
            assert(c5.wf());
            let k = 2 * nl - 2 - 2 * (i + 1);
            assert(c5.has_var(pts@[k]) && c5.has_var(pts@[k + 1]));
            assert(c5.has_var(x9.x) && c5.has_var(x9.y) && c5.has_var(next.x) && c5.has_var(next.y));
        }
        nonzeros.push(adv[7 * m + i]);
        let k = 2 * nl - 2 - 2 * (i + 1);
        let p = EcAffinePoint::new_unchecked(pts[k], pts[k + 1], curve);
        let ghost nzb = nonzeros@;
        eclin_gadget(circuit, x9, p, next, nonzeros, round);
        proof {
            assert(c1.grown(&cs0, 1));
            assert(c2.grown(&c1, 1));
            assert(c3.grown(&c2, 1));
            assert(c4.grown(&c3, 3));
            assert(c5.grown(&c4, 3));
            lemma_grown_trans(&cs0, &c1, &c2, 1, 1);
            lemma_grown_trans(&cs0, &c2, &c3, 2, 1);
            lemma_grown_trans(&cs0, &c3, &c4, 3, 3);
            lemma_grown_trans(&cs0, &c4, &c5, 6, 3);
            lemma_grown_trans(&cs0, &c5, circuit, 9, 2);
            lemma_grown_trans(&c0, &cs0, circuit, 11 * i as nat, 11);
            crate::circuit::lemma_extends_trans(&c4, &c5, circuit);
            crate::circuit::lemma_extends_trans(&c3, &c4, &c5);
            crate::circuit::lemma_extends_trans(&c3, &c5, circuit);
            crate::circuit::lemma_extends_trans(&c2, &c3, circuit);
            crate::circuit::lemma_extends_trans(&c1, &c2, circuit);
            lemma_gate_kept(&c1, circuit, on_curve_kind(curve), seq![next.x, next.y]);
            lemma_gate_kept(&c2, circuit, on_curve_kind(curve), seq![x3.x, x3.y]);
            lemma_gate_kept(&c3, circuit, on_curve_kind(curve), seq![x9.x, x9.y]);
            lemma_gate_kept(&c4, circuit, GateKind::TripleCheck, seq![acc.x, acc.y, x3.x, x3.y, adv@[6 * m + i]]);
            lemma_gate_kept(&c5, circuit, GateKind::TripleCheck, seq![x3.x, x3.y, x9.x, x9.y, adv@[7 * m + i]]);
            assert(sm_step_gates(circuit.cs.all_constraints(), pts@, adv@, nl as nat, i as int, curve));
            assert forall|j: int| 0 <= j < i + 1 implies #[trigger] sm_step_gates(circuit.cs.all_constraints(), pts@, adv@, nl as nat, j, curve) by {
                if j < i {
                    lemma_step_gates_kept(&cs0, circuit, pts@, adv@, nl as nat, j, curve);
                }
            }
            assert(appended(nonzeros@, nzp, 3)) by {
                assert(nonzeros@.subrange(0, nzp.len() as int) =~= nzp);
            }
            assert(circuit.has_var(seq![nonzeros@.last()][0]));
            lemma_vars_kept(&c0, circuit, adv@, round as nat);
            assert(circuit.has_var(adv@[6 * m + i]) && circuit.has_var(adv@[7 * m + i]));
            assert forall|j: int| nzp.len() <= j < nonzeros@.len() implies circuit.has_var(#[trigger] nonzeros@[j]) by {
                assert(nzb == nzp.push(adv@[6 * m + i]).push(adv@[7 * m + i]));
                if j == nzp.len() {
                    assert(nonzeros@[j] == nonzeros@.drop_last()[j]);
                    assert(nonzeros@[j] == adv@[6 * m + i]);
                } else if j == nzp.len() + 1 {
                    assert(nonzeros@[j] == nonzeros@.drop_last()[j]);
                    assert(nonzeros@[j] == adv@[7 * m + i]);
                } else {
                    assert(nonzeros@[j] == nonzeros@.last());
                }
            }
            lemma_appended_vars_trans(&cs0, circuit, old(nonzeros)@, nzp, nonzeros@, 3 * i as nat, 3);
        }
        acc = next;
        i = i + 1;
    }
    proof {
        lemma_vars_kept(&c0, circuit, pts@, round as nat);
        lemma_vars_kept(&c0, circuit, adv@, round as nat);
        assert(vars_in(circuit, seq![acc.x, acc.y], round as nat)) by {
            if m > 0 {
                assert(circuit.has_var(adv@[2 * (m - 1)]) && circuit.has_var(adv@[2 * (m - 1) + 1]));
                assert(adv@[2 * (m - 1)].round <= round && adv@[2 * (m - 1) + 1].round <= round);
            } else {
                assert(circuit.has_var(pts@[2 * nl - 2]) && circuit.has_var(pts@[2 * nl - 1]));
                assert(pts@[2 * nl - 2].round <= round && pts@[2 * nl - 1].round <= round);
            }
            assert(circuit.has_var(seq![acc.x, acc.y][0]) && circuit.has_var(seq![acc.x, acc.y][1]));
        }
    }
    acc
}


/// Entries appended twice are appended once.
proof fn lemma_appended_trans(a: Seq<Variable>, b: Seq<Variable>, c: Seq<Variable>, k1: nat, k2: nat)
    requires
        appended(b, a, k1),
        appended(c, b, k2),
    ensures
        appended(c, a, k1 + k2),
{
    assert(c.subrange(0, a.len() as int) =~= b.subrange(0, a.len() as int));
}

/// What a multiplication of `nl` limbs in base 9 adds to the circuit at
/// most.
pub open spec fn escalarmul_budget(nl: nat) -> nat {
    23 * nl + 27
}

/// The constraints of all steps of the multiplication on the points of the
/// limbs `pts` and the advice `adv`, and the final addition of `b`: `r` is
/// on the curve of `b`, and `b`, the last accumulator and `-r` are
/// collinear.
pub open spec fn sm_all_gates(
    cs: Seq<crate::constraint_system::Constraint<LibGate>>,
    pts: Seq<Variable>,
    adv: Seq<Variable>,
    nl: nat,
    curve: Curve,
    b: EcAffinePoint,
    r: EcAffinePoint,
) -> bool {
    let last = sm_acc_var(pts, adv, nl, nl - 1);
    &&& pts.len() == 2 * nl
    &&& adv.len() == 8 * (nl - 1)
    &&& forall|k: int| 0 <= k < nl - 1 ==> #[trigger] sm_step_gates(cs, pts, adv, nl, k, curve)
    &&& has_gate(cs, on_curve_kind(b.curve), seq![r.x, r.y])
    &&& has_gate(cs, GateKind::Collinear, seq![b.x, b.y, last.0, last.1, r.x, r.y])
}

/// The limbs are the base-9 digits of `sc`, each checked below 9.
pub open spec fn sm_limb_gates(
    cs: Seq<crate::constraint_system::Constraint<LibGate>>,
    limbs: Seq<Variable>,
    sc: Variable,
    nl: nat,
) -> bool {
    &&& limbs.len() == nl
    &&& has_gate(cs, GateKind::LimbDecomp { n: nl as usize, base: 9 }, limbs + seq![sc])
    &&& forall|i: int| 0 <= i < nl ==> has_gate(cs, GateKind::RangeCheck { range: 9 }, seq![#[trigger] limbs[i]])
}

/// Soundness of the digits of a multiplication: where every constraint of
/// the circuit holds on a witness, the base-9 digits `limbs` of the gates
/// give the value of `sc`.
pub proof fn law_limbs_sound(c: Circuit, w: CSWtns, limbs: Seq<Variable>, sc: Variable, nl: nat)
    requires
        c.wf(),
        forall|i: int| 0 <= i < c.cs.all_constraints().len() ==> #[trigger] constraint_holds(c.cs.all_constraints()[i], w),
        sm_limb_gates(c.cs.all_constraints(), limbs, sc, nl),
        nl > 0,
    ensures
        w.slot(sc).unwrap().unwrap().val() == poly_eval(vals(assigned_vals(w, limbs)), 9),
{
    let cs = c.cs.all_constraints();
    let g = GateKind::LimbDecomp { n: nl as usize, base: 9 };
    let ins = limbs + seq![sc];
    let i = choose|i: int| 0 <= i < cs.len() && (#[trigger] cs[i]).gate.kind() == g && cs[i].inputs@ == ins;
    assert(constraint_holds(cs[i], w));
    lemma_constraint_arity(&c, i);
    let xs = assigned_vals(w, ins);
    assert(vals(xs).take(nl as int) =~= vals(assigned_vals(w, limbs)));
    assert(xs[nl as int] == assigned_vals(w, seq![sc])[0]);
    let e = poly_eval(vals(assigned_vals(w, limbs)), 9);
    let v = xs[nl as int].val();
    assert(cs[i].gate.spec_exec(xs)[0] == 0);
    assert(fsub(e, v) == 0);
    let l = vals(assigned_vals(w, limbs));
    crate::field::lemma_fm_bound((l[0] + fmul(9, poly_eval(l.drop_first(), 9))) as int);
    xs[nl as int].lemma_val_lt();
    crate::field::lemma_fsub_zero(e, v);
}

/// All the gates of a multiplication of `pt` by `sc` with the offsets `a`
/// and `b` into `r`: the digits of `sc`, the table `a + k pt`, the choice of
/// an entry per digit, the steps from the last digit down, and the final
/// addition of `b`.
pub open spec fn escalarmul_full(
    cs: Seq<crate::constraint_system::Constraint<LibGate>>,
    pts: Seq<Variable>,
    adv: Seq<Variable>,
    pre: Seq<Vec<Variable>>,
    limbs: Seq<Variable>,
    sc: Variable,
    pt: EcAffinePoint,
    a: EcAffinePoint,
    b: EcAffinePoint,
    r: EcAffinePoint,
    nl: nat,
) -> bool {
    &&& sm_all_gates(cs, pts, adv, nl, pt.curve, b, r)
    &&& sm_table_gates(cs, pre, a, pt)
    &&& sm_limb_gates(cs, limbs, sc, nl)
    &&& sm_choice_gates(cs, pre, limbs, pts)
}

/// The gates of a multiplication stay as the circuit grows.
pub proof fn lemma_full_kept(
    before: &Circuit,
    after: &Circuit,
    pts: Seq<Variable>,
    adv: Seq<Variable>,
    pre: Seq<Vec<Variable>>,
    limbs: Seq<Variable>,
    sc: Variable,
    pt: EcAffinePoint,
    a: EcAffinePoint,
    b: EcAffinePoint,
    r: EcAffinePoint,
    nl: nat,
)
    requires
        after.extends(before),
        escalarmul_full(before.cs.all_constraints(), pts, adv, pre, limbs, sc, pt, a, b, r, nl),
    ensures
        escalarmul_full(after.cs.all_constraints(), pts, adv, pre, limbs, sc, pt, a, b, r, nl),
{
    lemma_all_gates_kept(before, after, pts, adv, nl, pt.curve, b, r);
    lemma_table_kept(before, after, pre, a, pt);
    lemma_limb_gates_kept(before, after, limbs, sc, nl);
    lemma_choice_kept(before, after, pre, limbs, pts);
}

proof fn lemma_table_kept(before: &Circuit, after: &Circuit, pre: Seq<Vec<Variable>>, a: EcAffinePoint, pt: EcAffinePoint)
    requires
        after.extends(before),
        sm_table_gates(before.cs.all_constraints(), pre, a, pt),
    ensures
        sm_table_gates(after.cs.all_constraints(), pre, a, pt),
{
    assert forall|k: int| 0 <= k < 8 implies #[trigger] table_step(after.cs.all_constraints(), pre, a, pt, k) by {
        lemma_table_step_kept(before, after, pre, a, pt, k);
    }
}

proof fn lemma_limb_gates_kept(before: &Circuit, after: &Circuit, limbs: Seq<Variable>, sc: Variable, nl: nat)
    requires
        after.extends(before),
        sm_limb_gates(before.cs.all_constraints(), limbs, sc, nl),
    ensures
        sm_limb_gates(after.cs.all_constraints(), limbs, sc, nl),
{
    lemma_gate_kept(before, after, GateKind::LimbDecomp { n: nl as usize, base: 9 }, limbs + seq![sc]);
    assert forall|i: int| 0 <= i < nl implies has_gate(after.cs.all_constraints(), GateKind::RangeCheck { range: 9 }, seq![#[trigger] limbs[i]]) by {
        lemma_gate_kept(before, after, GateKind::RangeCheck { range: 9 }, seq![limbs[i]]);
    }
}

proof fn lemma_choice_kept(before: &Circuit, after: &Circuit, pre: Seq<Vec<Variable>>, limbs: Seq<Variable>, pts: Seq<Variable>)
    requires
        after.extends(before),
        sm_choice_gates(before.cs.all_constraints(), pre, limbs, pts),
    ensures
        sm_choice_gates(after.cs.all_constraints(), pre, limbs, pts),
{
    assert forall|i: int| 0 <= i < limbs.len() implies #[trigger] choice_step(after.cs.all_constraints(), pre, limbs, pts, i) by {
        lemma_choice_step_kept(before, after, pre, limbs, pts, i);
    }
}

/// Multiplies the point by the scalar, in base 9. The prover also gives a
/// pair of points `(a, b)` with `b + (1 + 9 + ... + 9^(num_limbs - 1)) a = 0`:
/// the result is sound when this holds, and computable when `a` is random;
/// these points should be public inputs, checked by the decider.
///
/// The scalar is split into `num_limbs` digits in base 9; `a + k pt` is
/// computed for `k` up to 8; from the last digit down the accumulator is
/// multiplied by 9 (two triplings, checked as `2 A` scaled to `B - A`) and
/// the multiple that the next digit selects is added, all points of the
/// steps being advice. The accumulated error `a (1 + 9 + ...)` is cancelled
/// by adding `b`.
#[verifier::spinoff_prover]
#[verifier::rlimit(80)]
pub fn escalarmul_gadget_9(
    circuit: &mut Circuit,
    sc: Variable,
    pt: EcAffinePoint,
    num_limbs: usize,
    round: usize,
    a: EcAffinePoint,
    b: EcAffinePoint,
    nonzeros: &mut Vec<Variable>,
) -> (r: EcAffinePoint)
    requires
        old(circuit).wf(),
        round < old(circuit).rounds(),
        9 <= old(circuit).max_deg(),
        num_limbs >= 1,
        vars_in(old(circuit), seq![sc, pt.x, pt.y, a.x, a.y, b.x, b.y], round as nat),
        old(circuit).room(escalarmul_budget(num_limbs as nat)),
    ensures
        final(circuit).grown(old(circuit), escalarmul_budget(num_limbs as nat)),
        final(circuit).fresh(old(circuit), seq![r.x, r.y], round as nat, Visibility::Private),
        r.curve == b.curve,
        appended_vars(final(circuit), final(nonzeros)@, old(nonzeros)@, (3 * num_limbs + 6) as nat),
        exists|pts: Seq<Variable>, adv: Seq<Variable>, pre: Seq<Vec<Variable>>, limbs: Seq<Variable>|
            #[trigger] escalarmul_full(final(circuit).cs.all_constraints(), pts, adv, pre, limbs, sc, pt, a, b, r, num_limbs as nat),
{
    let ghost c0 = *circuit;
    let ghost nl = num_limbs as nat;
    let ghost inputs = seq![sc, pt.x, pt.y, a.x, a.y, b.x, b.y];
    proof {
        assert(c0.has_var(inputs[0]) && inputs[0].round <= round);
        lemma_room_step(&c0, &c0, 0, escalarmul_budget(nl));
    }
    let limbs = limb_decompose_gadget(circuit, 9, round, num_limbs, sc);
    let ghost c1 = *circuit;
    proof {
        lemma_room_step(&c0, &c1, 2 * nl + 1, (21 * nl + 26) as nat);
        lemma_vars_kept(&c0, &c1, inputs, round as nat);
        assert(vars_in(&c1, seq![a.x, a.y, pt.x, pt.y], round as nat)) by {
            assert(c1.has_var(inputs[1]) && c1.has_var(inputs[2]) && c1.has_var(inputs[3]) && c1.has_var(inputs[4]));
            assert(inputs[1].round <= round && inputs[2].round <= round && inputs[3].round <= round && inputs[4].round <= round);
        }
        assert(c1.room(40)) by {
            lemma_room_step(&c1, &c1, 0, 40);
        }
    }
    let pre = precompute_multiples(circuit, a, pt, nonzeros, round);
    let ghost c2 = *circuit;
    let ghost nz2 = nonzeros@;
    proof {
        lemma_room_step(&c1, &c2, 40, (21 * nl - 14) as nat);
        assert(vars_in(&c1, small_vars(limbs@), round as nat)) by {
            assert forall|j: int| 0 <= j < small_vars(limbs@).len() implies c1.has_var(#[trigger] small_vars(limbs@)[j]) && small_vars(limbs@)[j].round <= round by {}
        }
        lemma_vars_kept(&c1, &c2, small_vars(limbs@), round as nat);
        assert(c2.room(2 * limbs@.len())) by {
            lemma_room_step(&c2, &c2, 0, 2 * nl);
        }
    }
    let pts = choose_limb_points(circuit, pre.as_slice(), limbs.as_slice(), round);
    let ghost c3 = *circuit;
    proof {
        lemma_room_step(&c2, &c3, 2 * nl, (19 * nl - 14) as nat);
        assert(c3.room(8 * (nl - 1) as nat)) by {
            lemma_room_step(&c3, &c3, 0, 8 * (nl - 1) as nat);
        }
        assert forall|j: int| 0 <= j < pts@.len() implies c3.has_var(#[trigger] pts@[j]) && pts@[j].round <= round by {}
    }
    let adv = circuit.advice(round, AdviceKind::ScalarMul9 { n: num_limbs }, copy_vars(pts.as_slice()));
    let ghost c4 = *circuit;
    proof {
        lemma_room_step(&c3, &c4, 8 * (nl - 1) as nat, (11 * nl - 6) as nat);
        lemma_vars_kept(&c3, &c4, pts@, round as nat);
        assert(vars_in(&c4, adv@, round as nat)) by {
            assert forall|j: int| 0 <= j < adv@.len() implies c4.has_var(#[trigger] adv@[j]) && adv@[j].round <= round by {}
        }
        assert(c4.room(11 * (nl - 1) as nat)) by {
            lemma_room_step(&c4, &c4, 0, 11 * (nl - 1) as nat);
        }
        assert(c4.grown(&c3, 8 * (nl - 1) as nat));
    }
    let last = scalarmul_checks(circuit, pts.as_slice(), adv.as_slice(), num_limbs, pt.curve, nonzeros, round);
    let ghost c5 = *circuit;
    let ghost nz5 = nonzeros@;
    proof {
        lemma_room_step(&c4, &c5, 11 * (nl - 1) as nat, 5);
        lemma_grown_trans(&c0, &c1, &c2, 2 * nl + 1, 40);
        lemma_grown_trans(&c0, &c2, &c3, 2 * nl + 41, 2 * nl);
        lemma_grown_trans(&c0, &c3, &c4, 4 * nl + 41, 8 * (nl - 1) as nat);
        lemma_grown_trans(&c0, &c4, &c5, (12 * nl + 33) as nat, 11 * (nl - 1) as nat);
        lemma_vars_kept(&c0, &c5, inputs, round as nat);
        assert(c5.has_var(inputs[5]) && c5.has_var(inputs[6]));
        assert(inputs[5].round <= round && inputs[6].round <= round);
        assert(c5.has_var(seq![last.x, last.y][0]) && c5.has_var(seq![last.x, last.y][1]));
        assert(seq![last.x, last.y][0].round <= round && seq![last.x, last.y][1].round <= round);
    }
    let r = ecadd_gadget(circuit, b, last, nonzeros, round);
    proof {
        lemma_grown_trans(&c0, &c5, circuit, (23 * nl + 22) as nat, 5);
        crate::circuit::lemma_extends_trans(&c2, &c3, &c4);
        crate::circuit::lemma_extends_trans(&c2, &c4, &c5);
        lemma_appended_vars_trans(&c2, &c5, old(nonzeros)@, nz2, nz5, 8, 3 * (nl - 1) as nat);
        assert(appended(nonzeros@, nz5, 1)) by {
            assert(nonzeros@.subrange(0, nz5.len() as int) =~= nonzeros@.drop_last());
        }
        assert(circuit.has_var(seq![nonzeros@.last()][0]));
        lemma_appended_vars_trans(&c5, circuit, old(nonzeros)@, nz5, nonzeros@, (3 * nl + 5) as nat, 1);
        let rs = seq![r.x, r.y];
        assert forall|j: int| 0 <= j < rs.len() implies #[trigger] circuit.has_var(rs[j]) && !c0.has_var(rs[j]) by {
            assert(circuit.has_var(rs[j]) && !c5.has_var(rs[j]));
            if c0.has_var(rs[j]) {
                assert(c5.has_var(rs[j]));
            }
        }
        assert forall|k: int| 0 <= k < nl - 1 implies #[trigger] sm_step_gates(circuit.cs.all_constraints(), pts@, adv@, nl, k, pt.curve) by {
            lemma_step_gates_kept(&c5, circuit, pts@, adv@, nl, k, pt.curve);
        }
        assert(sm_all_gates(circuit.cs.all_constraints(), pts@, adv@, nl, pt.curve, b, r));
        let lv = small_vars(limbs@);
        assert(sm_limb_gates(c1.cs.all_constraints(), lv, sc, nl)) by {
            assert forall|i: int| 0 <= i < nl implies has_gate(c1.cs.all_constraints(), GateKind::RangeCheck { range: 9 }, seq![#[trigger] lv[i]]) by {
                assert(lv[i] == limbs@[i].var);
            }
        }
        crate::circuit::lemma_extends_trans(&c1, &c2, &c3);
        crate::circuit::lemma_extends_trans(&c1, &c3, &c4);
        crate::circuit::lemma_extends_trans(&c1, &c4, &c5);
        crate::circuit::lemma_extends_trans(&c1, &c5, circuit);
        crate::circuit::lemma_extends_trans(&c2, &c5, circuit);
        crate::circuit::lemma_extends_trans(&c3, &c4, &c5);
        crate::circuit::lemma_extends_trans(&c3, &c5, circuit);
        lemma_limb_gates_kept(&c1, circuit, lv, sc, nl);
        lemma_table_kept(&c2, circuit, pre@, a, pt);
        lemma_choice_kept(&c3, circuit, pre@, lv, pts@);
        assert(escalarmul_full(circuit.cs.all_constraints(), pts@, adv@, pre@, lv, sc, pt, a, b, r, nl));
    }
    r
}


/// The gates of a multiplication stay as the circuit grows.
pub proof fn lemma_all_gates_kept(
    before: &Circuit,
    after: &Circuit,
    pts: Seq<Variable>,
    adv: Seq<Variable>,
    nl: nat,
    curve: Curve,
    b: EcAffinePoint,
    r: EcAffinePoint,
)
    requires
        after.extends(before),
        sm_all_gates(before.cs.all_constraints(), pts, adv, nl, curve, b, r),
    ensures
        sm_all_gates(after.cs.all_constraints(), pts, adv, nl, curve, b, r),
{
    let last = sm_acc_var(pts, adv, nl, nl - 1);
    assert forall|k: int| 0 <= k < nl - 1 implies #[trigger] sm_step_gates(after.cs.all_constraints(), pts, adv, nl, k, curve) by {
        lemma_step_gates_kept(before, after, pts, adv, nl, k, curve);
    }
    lemma_gate_kept(before, after, on_curve_kind(b.curve), seq![r.x, r.y]);
    lemma_gate_kept(before, after, GateKind::Collinear, seq![b.x, b.y, last.0, last.1, r.x, r.y]);
}

} // verus!
