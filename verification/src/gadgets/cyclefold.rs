//! The cyclefold circuit: it checks `PT_ACC + SC * PT_INC = PT_RES` for
//! points of a curve over the circuit's field, with the scalar
//! multiplication in base 9 and an offset point.

use vstd::prelude::*;
use halo2curves::bn256::Fr;
use halo2curves::grumpkin::{G1Affine, Fr as GFr};
use group::Curve as _;
use halo2curves::{CurveAffine, CurveExt};
use crate::field::{Fe, fneg, fsub, fmul};
use crate::constraint_system::{ExternalValue, Variable};
use crate::circuit::{Circuit, ConstructedCircuit, has_gate, lemma_grown_trans, lemma_room_step, lemma_extends_trans};
use crate::gatelib::GateKind;
use crate::gadgets::arith::read_const_gadget;
use crate::gadgets::input::input;
use crate::gadgets::nonzero_check::{nonzero_gadget, has_nonzero_check};
use crate::gadgets::ecmul::{
    Curve, EcAffinePoint, on_curve_kind, eclin_gadget, escalarmul_gadget_9, escalarmul_budget,
    vars_in, appended, lemma_vars_kept, lemma_appended_vars_trans, escalarmul_full, lemma_full_kept,
};

verus! {

/// The number of base-9 limbs of the scalar.
pub const CYCLEFOLD_LIMBS: usize = 41;

/// The grumpkin point `(x, y)` times `k`, in affine coordinates, as
/// halo2curves computes it.
pub uninterp spec fn grumpkin_mul(x: nat, y: nat, k: nat) -> (nat, nat);

/// The sum of two grumpkin points, in affine coordinates, as halo2curves
/// computes it.
pub uninterp spec fn grumpkin_add(x1: nat, y1: nat, x2: nat, y2: nat) -> (nat, nat);

/// `(x, y)` is what grumpkin's `G1Affine::from_xy` accepts: a point of
/// `y^2 = x^3 - 17` (halo2curves' `a` is zero and its `b` is `-17`), or the
/// identity `(0, 0)`.
pub open spec fn grumpkin_on_curve(x: nat, y: nat) -> bool {
    fsub(fmul(y, y), fmul(fmul(x, x), x)) == fneg(17) || (x == 0 && y == 0)
}

/// halo2curves' grumpkin `G1Affine::from_xy`, `* Fr::from(k)` and
/// `to_affine`: `None` exactly where `from_xy` refuses the coordinates;
/// otherwise the named product, which as an element of the group is again
/// accepted by `from_xy`.
#[verifier::external_body]
fn ec_mul_u64(p: (Fe, Fe), k: u64) -> (r: Option<(Fe, Fe)>)
    ensures
        r is Some <==> grumpkin_on_curve(p.0.val(), p.1.val()),
        r matches Some(q) ==> ((q.0.val(), q.1.val()) == grumpkin_mul(p.0.val(), p.1.val(), k as nat)
            && grumpkin_on_curve(q.0.val(), q.1.val())),
{
    let a: Option<G1Affine> = G1Affine::from_xy(
        Fr::from_bytes(&p.0.to_bytes()).unwrap(),
        Fr::from_bytes(&p.1.to_bytes()).unwrap(),
    ).into();
    let q = (a? * GFr::from(k)).to_affine();
    Some((Fe::from_bytes(q.x.to_bytes()).unwrap(), Fe::from_bytes(q.y.to_bytes()).unwrap()))
}

/// halo2curves' grumpkin `G1Affine::from_xy` on both points, their sum and
/// `to_affine`: `None` exactly where `from_xy` refuses either; otherwise the
/// named sum, which as an element of the group is again accepted by
/// `from_xy`.
#[verifier::external_body]
fn ec_add(p: (Fe, Fe), q: (Fe, Fe)) -> (r: Option<(Fe, Fe)>)
    ensures
        r is Some <==> (grumpkin_on_curve(p.0.val(), p.1.val()) && grumpkin_on_curve(q.0.val(), q.1.val())),
        r matches Some(s) ==> ((s.0.val(), s.1.val()) == grumpkin_add(p.0.val(), p.1.val(), q.0.val(), q.1.val())
            && grumpkin_on_curve(s.0.val(), s.1.val())),
{
    let a: Option<G1Affine> = G1Affine::from_xy(Fr::from_bytes(&p.0.to_bytes()).unwrap(), Fr::from_bytes(&p.1.to_bytes()).unwrap()).into();
    let b: Option<G1Affine> = G1Affine::from_xy(Fr::from_bytes(&q.0.to_bytes()).unwrap(), Fr::from_bytes(&q.1.to_bytes()).unwrap()).into();
    let s = (a? + b?).to_affine();
    Some((Fe::from_bytes(s.x.to_bytes()).unwrap(), Fe::from_bytes(s.y.to_bytes()).unwrap()))
}

/// The coefficients of grumpkin, `a` and `b` of `y^2 = x^3 + a x + b`, as
/// halo2curves' `CurveExt::a` and `CurveExt::b` give them: `0` and `-17`.
#[verifier::external_body]
fn grumpkin_curve() -> (r: Curve)
    ensures
        r.a.val() == 0,
        r.b.val() == fneg(17),
{
    Curve {
        a: Fe::from_bytes(halo2curves::grumpkin::G1::a().to_bytes()).unwrap(),
        b: Fe::from_bytes(halo2curves::grumpkin::G1::b().to_bytes()).unwrap(),
    }
}

/// `(1 + 9 + ... + 9^(n - 1)) a`, by Horner's rule on the curve's
/// operations.
pub open spec fn horner9(a: (nat, nat), n: nat) -> (nat, nat)
    decreases n,
{
    if n <= 1 {
        a
    } else {
        let p = horner9(a, (n - 1) as nat);
        let q = grumpkin_mul(p.0, p.1, 9);
        grumpkin_add(q.0, q.1, a.0, a.1)
    }
}

/// `(1 + 9 + ... + 9^(n - 1)) a`; `None` exactly where `a` is not on the
/// curve and there is a step to make (`n > 1`).
pub fn offset_multiple(a: (Fe, Fe), n: usize) -> (r: Option<(Fe, Fe)>)
    requires
        n >= 1,
    ensures
        r is Some <==> (n == 1 || grumpkin_on_curve(a.0.val(), a.1.val())),
        r matches Some(b) ==> (b.0.val(), b.1.val()) == horner9((a.0.val(), a.1.val()), n as nat),
{
    let mut acc = a;
    let mut i: usize = 1;
    while i < n
        invariant
            1 <= i <= n,
            (acc.0.val(), acc.1.val()) == horner9((a.0.val(), a.1.val()), i as nat),
            i == 1 ==> acc == a,
            i > 1 ==> grumpkin_on_curve(a.0.val(), a.1.val()),
            grumpkin_on_curve(a.0.val(), a.1.val()) ==> grumpkin_on_curve(acc.0.val(), acc.1.val()),
        decreases n - i,
    {
        let q = match ec_mul_u64(acc, 9) {
            Some(q) => q,
            None => {
                return None;
            },
        };
        acc = match ec_add(q, a) {
            Some(s) => s,
            None => {
                return None;
            },
        };
        i = i + 1;
    }
    Some(acc)
}

/// A cyclefold circuit and the external values of its inputs.
pub struct ConstructedCyclefoldCircuit {
    pub constructed: ConstructedCircuit,
    pub pt_acc: (ExternalValue, ExternalValue),
    pub pt_inc: (ExternalValue, ExternalValue),
    pub pt_res: (ExternalValue, ExternalValue),
    pub sc: ExternalValue,
}

/// The constraints of a cyclefold circuit on its variables `v`: the offset
/// points `a` and `b` read as constants into `v[0..4]`; the incoming, the
/// accumulated and the result points `v[5..7]`, `v[7..9]`, `v[9..11]` on the
/// curve; the multiplication of the incoming point by the scalar `v[4]`
/// into `prod`, with its steps; `prod`, the accumulated point and the
/// negated result collinear; and a check that values are nonzero.
pub open spec fn cyclefold_gates(
    cs: Seq<crate::constraint_system::Constraint<crate::gatelib::LibGate>>,
    v: Seq<Variable>,
    prod: EcAffinePoint,
    a: (Fe, Fe),
    b: (Fe, Fe),
    curve: Curve,
) -> bool {
    &&& v.len() == 11
    &&& has_gate(cs, GateKind::ReadConst { c: a.0 }, seq![v[0]])
    &&& has_gate(cs, GateKind::ReadConst { c: a.1 }, seq![v[1]])
    &&& has_gate(cs, GateKind::ReadConst { c: b.0 }, seq![v[2]])
    &&& has_gate(cs, GateKind::ReadConst { c: b.1 }, seq![v[3]])
    &&& has_gate(cs, on_curve_kind(curve), seq![v[5], v[6]])
    &&& has_gate(cs, on_curve_kind(curve), seq![v[7], v[8]])
    &&& has_gate(cs, on_curve_kind(curve), seq![v[9], v[10]])
    &&& exists|pts: Seq<Variable>, adv: Seq<Variable>, pre: Seq<Vec<Variable>>, limbs: Seq<Variable>|
        #[trigger] escalarmul_full(
            cs,
            pts,
            adv,
            pre,
            limbs,
            v[4],
            EcAffinePoint { x: v[5], y: v[6], curve },
            EcAffinePoint { x: v[0], y: v[1], curve },
            EcAffinePoint { x: v[2], y: v[3], curve },
            prod,
            CYCLEFOLD_LIMBS as nat,
        )
    &&& has_gate(cs, GateKind::Collinear, seq![prod.x, prod.y, v[7], v[8], v[9], v[10]])
    &&& exists|p: Variable| #[trigger] has_nonzero_check(cs, p)
}

/// Two external values read into a point on the curve, in round 0.
fn input_point(circuit: &mut Circuit, curve: Curve) -> (r: ((ExternalValue, ExternalValue), EcAffinePoint))
    requires
        old(circuit).wf(),
        old(circuit).rounds() >= 1,
        old(circuit).room(5),
    ensures
        final(circuit).grown(old(circuit), 5),
        final(circuit).cs.wspec().num_exts == old(circuit).cs.wspec().num_exts + 2,
        r.0.0.addr == old(circuit).cs.wspec().num_exts,
        r.0.1.addr == old(circuit).cs.wspec().num_exts + 1,
        r.1.curve == curve,
        vars_in(final(circuit), seq![r.1.x, r.1.y], 0),
        has_gate(final(circuit).cs.all_constraints(), on_curve_kind(curve), seq![r.1.x, r.1.y]),
{
    let ghost c0 = *circuit;
    let e = circuit.ext_val(2);
    let ghost c1 = *circuit;
    proof {
        lemma_room_step(&c0, &c1, 2, 3);
    }
    let x = input(circuit, e[0], 0);
    let ghost c2 = *circuit;
    proof {
        lemma_room_step(&c1, &c2, 1, 2);
    }
    let y = input(circuit, e[1], 0);
    let ghost c3 = *circuit;
    proof {
        lemma_room_step(&c2, &c3, 1, 1);
        assert(c3.has_var(seq![x][0]));
        assert(c2.has_var(seq![x][0]));
        assert(c3.has_var(seq![y][0]));
    }
    let pt = EcAffinePoint::new(circuit, x, y, curve);
    proof {
        assert(c1.grown(&c0, 2));
        lemma_grown_trans(&c0, &c1, &c2, 2, 1);
        lemma_grown_trans(&c0, &c2, &c3, 3, 1);
        assert(circuit.grown(&c3, 1));
        lemma_grown_trans(&c0, &c3, circuit, 4, 1);
        assert(circuit.has_var(x) && circuit.has_var(y));
        assert(seq![x][0].round == 0 && seq![y][0].round == 0);
        assert(circuit.has_var(seq![pt.x, pt.y][0]) && circuit.has_var(seq![pt.x, pt.y][1]));
    }
    ((e[0], e[1]), pt)
}

/// The cyclefold circuit with the offset points `a` and `b`, which should
/// satisfy `b + (1 + 9 + ... + 9^40) a = 0`: it checks
/// `PT_ACC + SC * PT_INC = PT_RES` on the curve. It can fail for some
/// offsets, so the offset should be random; and it fails where
/// `PT_ACC`, `SC * PT_INC` and `PT_RES` are not distinct, which a random
/// scalar avoids.
#[verifier::rlimit(60)]
pub fn cyclefold_circuit(a: (Fe, Fe), b: (Fe, Fe), curve: Curve) -> (r: ConstructedCyclefoldCircuit)
    ensures
        r.constructed.circuit.wf(),
        r.constructed.circuit.rounds() == 1,
        r.constructed.circuit.max_deg() == 10,
        r.sc.addr == 0,
        r.pt_inc.0.addr == 1 && r.pt_inc.1.addr == 2,
        r.pt_acc.0.addr == 3 && r.pt_acc.1.addr == 4,
        r.pt_res.0.addr == 5 && r.pt_res.1.addr == 6,
        exists|v: Seq<Variable>, prod: EcAffinePoint|
            #[trigger] cyclefold_gates(r.constructed.circuit.cs.all_constraints(), v, prod, a, b, curve),
{
    let mut circuit = Circuit::new(10, 1);
    let ghost c0 = circuit;
    let ghost total = (usize::MAX - 1) as nat;
    let ax = read_const_gadget(&mut circuit, a.0, 0);
    let ghost c1 = circuit;
    proof { lemma_room_step(&c0, &c1, 2, (total - 2) as nat); }
    let ay = read_const_gadget(&mut circuit, a.1, 0);
    let ghost c2 = circuit;
    proof {
        lemma_room_step(&c1, &c2, 2, (total - 4) as nat);
        lemma_grown_trans(&c0, &c1, &c2, 2, 2);
    }
    let bx = read_const_gadget(&mut circuit, b.0, 0);
    let ghost c3 = circuit;
    proof {
        lemma_room_step(&c2, &c3, 2, (total - 6) as nat);
        lemma_grown_trans(&c0, &c2, &c3, 4, 2);
    }
    let by = read_const_gadget(&mut circuit, b.1, 0);
    let ghost c4 = circuit;
    proof {
        lemma_room_step(&c3, &c4, 2, (total - 8) as nat);
        lemma_grown_trans(&c0, &c3, &c4, 6, 2);
        lemma_extends_trans(&c1, &c2, &c3);
        lemma_extends_trans(&c1, &c3, &c4);
        lemma_extends_trans(&c2, &c3, &c4);
        crate::circuit::lemma_gate_kept(&c1, &c4, GateKind::ReadConst { c: a.0 }, seq![ax]);
        crate::circuit::lemma_gate_kept(&c2, &c4, GateKind::ReadConst { c: a.1 }, seq![ay]);
        crate::circuit::lemma_gate_kept(&c3, &c4, GateKind::ReadConst { c: b.0 }, seq![bx]);
        assert(c4.has_var(seq![ax][0]) && c4.has_var(seq![ay][0]) && c4.has_var(seq![bx][0]) && c4.has_var(seq![by][0])) by {
            assert(c1.has_var(seq![ax][0]));
            assert(c2.has_var(seq![ay][0]));
            assert(c3.has_var(seq![bx][0]));
        }
        assert(c4.cs.wspec().num_exts == 0);
    }
    let pt_a = EcAffinePoint::new_unchecked(ax, ay, curve);
    let pt_b = EcAffinePoint::new_unchecked(bx, by, curve);
    let mut nonzeros: Vec<Variable> = Vec::new();

    let scalar_inp = circuit.ext_val(1)[0];
    let ghost c5 = circuit;
    proof {
        lemma_room_step(&c4, &c5, 1, (total - 9) as nat);
        lemma_grown_trans(&c0, &c4, &c5, 8, 1);
    }
    let sc = input(&mut circuit, scalar_inp, 0);
    let ghost c6 = circuit;
    proof {
        lemma_room_step(&c5, &c6, 1, (total - 10) as nat);
        lemma_grown_trans(&c0, &c5, &c6, 9, 1);
        assert(c6.has_var(seq![sc][0]));
    }
    let (pt_inc, incoming_point) = input_point(&mut circuit, curve);
    let ghost c7 = circuit;
    proof {
        lemma_room_step(&c6, &c7, 5, (total - 15) as nat);
        lemma_grown_trans(&c0, &c6, &c7, 10, 5);
    }
    let (pt_acc, accumulated_point) = input_point(&mut circuit, curve);
    let ghost c8 = circuit;
    proof {
        lemma_room_step(&c7, &c8, 5, (total - 20) as nat);
        lemma_grown_trans(&c0, &c7, &c8, 15, 5);
    }
    let (pt_res, result_point) = input_point(&mut circuit, curve);
    let ghost c9 = circuit;
    proof {
        lemma_room_step(&c8, &c9, 5, (total - 25) as nat);
        lemma_grown_trans(&c0, &c8, &c9, 20, 5);
        lemma_extends_trans(&c4, &c5, &c6);
        lemma_extends_trans(&c4, &c6, &c7);
        lemma_extends_trans(&c4, &c7, &c8);
        lemma_extends_trans(&c4, &c8, &c9);
        lemma_extends_trans(&c6, &c7, &c8);
        lemma_extends_trans(&c6, &c8, &c9);
        lemma_extends_trans(&c7, &c8, &c9);
        assert(c9.has_var(seq![ax][0]) && c9.has_var(seq![ay][0]) && c9.has_var(seq![bx][0]) && c9.has_var(seq![by][0]));
        assert(c9.has_var(seq![sc][0]));
        lemma_vars_kept(&c7, &c9, seq![incoming_point.x, incoming_point.y], 0);
        lemma_vars_kept(&c8, &c9, seq![accumulated_point.x, accumulated_point.y], 0);
        assert(c9.has_var(seq![incoming_point.x, incoming_point.y][0]) && c9.has_var(seq![incoming_point.x, incoming_point.y][1]));
        assert(vars_in(&c9, seq![sc, incoming_point.x, incoming_point.y, pt_a.x, pt_a.y, pt_b.x, pt_b.y], 0)) by {
            assert(seq![ax][0].round == 0 && seq![ay][0].round == 0 && seq![bx][0].round == 0 && seq![by][0].round == 0);
            assert(seq![sc][0].round == 0);
            assert(seq![incoming_point.x, incoming_point.y][0].round == 0);
            assert(seq![incoming_point.x, incoming_point.y][1].round == 0);
        }
        assert(c9.room(escalarmul_budget(CYCLEFOLD_LIMBS as nat)));
    }
    let prod = escalarmul_gadget_9(
        &mut circuit,
        sc,
        incoming_point,
        CYCLEFOLD_LIMBS,
        0,
        pt_a,
        pt_b,
        &mut nonzeros,
    );
    let ghost c10 = circuit;
    let ghost nz10 = nonzeros@;
    proof {
        lemma_room_step(&c9, &c10, 970, (total - 995) as nat);
        lemma_grown_trans(&c0, &c9, &c10, 25, 970);
        lemma_extends_trans(&c8, &c9, &c10);
        lemma_vars_kept(&c8, &c10, seq![accumulated_point.x, accumulated_point.y], 0);
        lemma_vars_kept(&c9, &c10, seq![result_point.x, result_point.y], 0);
        assert(c10.has_var(seq![accumulated_point.x, accumulated_point.y][0]) && c10.has_var(seq![accumulated_point.x, accumulated_point.y][1]));
        assert(c10.has_var(seq![result_point.x, result_point.y][0]) && c10.has_var(seq![result_point.x, result_point.y][1]));
        assert(c10.has_var(seq![prod.x, prod.y][0]) && c10.has_var(seq![prod.x, prod.y][1]));
        assert(seq![accumulated_point.x, accumulated_point.y][0].round == 0);
        assert(seq![result_point.x, result_point.y][0].round == 0);
        assert(seq![prod.x, prod.y][0].round == 0);
    }
    eclin_gadget(&mut circuit, prod, accumulated_point, result_point, &mut nonzeros, 0);
    let ghost c11 = circuit;
    proof {
        lemma_room_step(&c10, &c11, 2, (total - 997) as nat);
        lemma_grown_trans(&c0, &c10, &c11, 995, 2);
        assert(appended(nonzeros@, nz10, 1)) by {
            assert(nonzeros@.subrange(0, nz10.len() as int) =~= nonzeros@.drop_last());
        }
        assert(c11.has_var(seq![nonzeros@.last()][0]));
        lemma_appended_vars_trans(&c10, &c11, Seq::empty(), nz10, nonzeros@, 129, 1);
        assert forall|j: int| 0 <= j < nonzeros@.len() implies c11.has_var(#[trigger] nonzeros@[j]) by {}
        lemma_extends_trans(&c9, &c10, &c11);
        assert(c11.has_var(c11.one_spec())) by {
            lemma_extends_trans(&c0, &c4, &c9);
            lemma_extends_trans(&c0, &c9, &c11);
            assert(c0.has_var(c0.one_spec()));
        }
    }
    nonzero_gadget(&mut circuit, nonzeros.as_slice(), 9);
    proof {
        let cs = circuit.cs.all_constraints();
        lemma_extends_trans(&c4, &c9, &c11);
        lemma_extends_trans(&c4, &c11, &circuit);
        lemma_extends_trans(&c7, &c9, &c11);
        lemma_extends_trans(&c7, &c11, &circuit);
        lemma_extends_trans(&c8, &c9, &c11);
        lemma_extends_trans(&c8, &c11, &circuit);
        lemma_extends_trans(&c9, &c11, &circuit);
        lemma_extends_trans(&c10, &c11, &circuit);
        crate::circuit::lemma_gate_kept(&c4, &circuit, GateKind::ReadConst { c: a.0 }, seq![ax]);
        crate::circuit::lemma_gate_kept(&c4, &circuit, GateKind::ReadConst { c: a.1 }, seq![ay]);
        crate::circuit::lemma_gate_kept(&c4, &circuit, GateKind::ReadConst { c: b.0 }, seq![bx]);
        crate::circuit::lemma_gate_kept(&c4, &circuit, GateKind::ReadConst { c: b.1 }, seq![by]);
        crate::circuit::lemma_gate_kept(&c7, &circuit, on_curve_kind(curve), seq![incoming_point.x, incoming_point.y]);
        crate::circuit::lemma_gate_kept(&c8, &circuit, on_curve_kind(curve), seq![accumulated_point.x, accumulated_point.y]);
        crate::circuit::lemma_gate_kept(&c9, &circuit, on_curve_kind(curve), seq![result_point.x, result_point.y]);
        crate::circuit::lemma_gate_kept(&c11, &circuit, GateKind::Collinear, seq![prod.x, prod.y, accumulated_point.x, accumulated_point.y, result_point.x, result_point.y]);
        let (pts, adv, pre, limbs) = choose|pts: Seq<Variable>, adv: Seq<Variable>, pre: Seq<Vec<Variable>>, limbs: Seq<Variable>|
            #[trigger] escalarmul_full(c10.cs.all_constraints(), pts, adv, pre, limbs, sc, incoming_point, pt_a, pt_b, prod, CYCLEFOLD_LIMBS as nat);
        lemma_full_kept(&c10, &circuit, pts, adv, pre, limbs, sc, incoming_point, pt_a, pt_b, prod, CYCLEFOLD_LIMBS as nat);
        let v = seq![
            ax, ay, bx, by, sc,
            incoming_point.x, incoming_point.y,
            accumulated_point.x, accumulated_point.y,
            result_point.x, result_point.y,
        ];
        assert(pt_b == EcAffinePoint { x: v[2], y: v[3], curve });
        assert(pt_a == EcAffinePoint { x: v[0], y: v[1], curve });
        assert(incoming_point == EcAffinePoint { x: v[5], y: v[6], curve });
        assert(escalarmul_full(
            cs,
            pts,
            adv,
            pre,
            limbs,
            v[4],
            EcAffinePoint { x: v[5], y: v[6], curve },
            EcAffinePoint { x: v[0], y: v[1], curve },
            EcAffinePoint { x: v[2], y: v[3], curve },
            prod,
            CYCLEFOLD_LIMBS as nat,
        ));
        assert(cyclefold_gates(cs, v, prod, a, b, curve));
    }
    let constructed = circuit.finalize();
    ConstructedCyclefoldCircuit { constructed, pt_acc, pt_inc, pt_res, sc: scalar_inp }
}

/// A cyclefold circuit of the offset `a` and of a second offset point
/// `-(1 + 9 + ... + 9^40) a`, with its external values in order: the
/// scalar, the incoming, the accumulated and the result point; on grumpkin,
/// `y^2 = x^3 - 17`.
pub open spec fn cyclefold_for_offset(c: ConstructedCyclefoldCircuit, a: (Fe, Fe)) -> bool {
    let m = horner9((a.0.val(), a.1.val()), CYCLEFOLD_LIMBS as nat);
    &&& exists|b: (Fe, Fe), curve: Curve, v: Seq<Variable>, prod: EcAffinePoint|
        #[trigger] cyclefold_gates(c.constructed.circuit.cs.all_constraints(), v, prod, a, b, curve)
            && b.0.val() == m.0 && b.1.val() == fneg(m.1)
            && curve.a.val() == 0 && curve.b.val() == fneg(17)
    &&& c.sc.addr == 0
    &&& c.pt_inc.0.addr == 1 && c.pt_inc.1.addr == 2
    &&& c.pt_acc.0.addr == 3 && c.pt_acc.1.addr == 4
    &&& c.pt_res.0.addr == 5 && c.pt_res.1.addr == 6
}

/// The cyclefold circuit on grumpkin with the offset point `(x, y)`: the
/// second offset point is `-(1 + 9 + ... + 9^40)` times it, so that the
/// offsets cancel. `None` exactly where the offset is not on the curve.
pub fn construct_cyclefold_circuit(offset: (Fe, Fe)) -> (r: Option<ConstructedCyclefoldCircuit>)
    ensures
        r is Some <==> grumpkin_on_curve(offset.0.val(), offset.1.val()),
        r matches Some(c) ==> cyclefold_for_offset(c, offset),
{
    let m = match offset_multiple(offset, CYCLEFOLD_LIMBS) {
        Some(m) => m,
        None => {
            return None;
        },
    };
    let b = (m.0, m.1.neg());
    let curve = grumpkin_curve();
    let c = cyclefold_circuit(offset, b, curve);
    proof {
        let (v, prod) = choose|v: Seq<Variable>, prod: EcAffinePoint|
            #[trigger] cyclefold_gates(c.constructed.circuit.cs.all_constraints(), v, prod, offset, b, curve);
        assert(cyclefold_gates(c.constructed.circuit.cs.all_constraints(), v, prod, offset, b, curve)
            && b.0.val() == horner9((offset.0.val(), offset.1.val()), CYCLEFOLD_LIMBS as nat).0
            && b.1.val() == fneg(horner9((offset.0.val(), offset.1.val()), CYCLEFOLD_LIMBS as nat).1)
            && curve.a.val() == 0 && curve.b.val() == fneg(17));
        assert(cyclefold_for_offset(c, offset));
    }
    Some(c)
}

} // verus!
