use ff::Field;
use group::{Curve as _, Group};
use halo2curves::bn256::Fr;
use halo2curves::grumpkin::{Fr as GFr, G1, G1Affine};
use halo2curves::CurveExt;
use rand_core::OsRng;
use protostar_works::circuit::Circuit;
use protostar_works::constraint_system::Variable;
use protostar_works::field::Fe;
use protostar_works::gadgets::ecmul::{
    add_proj, double_proj, ecadd_gadget, ecdouble_gadget, escalarmul_gadget_9, Curve, EcAffinePoint,
};
use protostar_works::gadgets::nonzero_check::nonzero_gadget;
use protostar_works::gadgets::input::input;

fn to_fe(x: Fr) -> Fe {
    Fe::from_bytes(x.to_bytes()).unwrap()
}

fn grumpkin() -> Curve {
    Curve { a: to_fe(G1::a()), b: to_fe(G1::b()) }
}

fn coords(p: G1Affine) -> (Fe, Fe) {
    (to_fe(p.x), to_fe(p.y))
}

/// A circuit with the given points as inputs, and the gadget applied.
fn run_binary(
    p: G1Affine,
    q: Option<G1Affine>,
) -> (bool, bool, Option<(Fe, Fe)>, usize) {
    let curve = grumpkin();
    let mut circuit = Circuit::new(3, 1);
    let exts = circuit.ext_val(4);
    let mut vars = vec![];
    for e in &exts {
        vars.push(input(&mut circuit, *e, 0));
    }
    let p_pt = EcAffinePoint::new(&mut circuit, vars[0], vars[1], curve);
    let q_pt = EcAffinePoint::new(&mut circuit, vars[2], vars[3], curve);
    let mut nonzeros: Vec<Variable> = vec![];
    let r = match q {
        Some(_) => ecadd_gadget(&mut circuit, p_pt, q_pt, &mut nonzeros, 0),
        None => ecdouble_gadget(&mut circuit, p_pt, &mut nonzeros, 0),
    };
    let mut constructed = circuit.finalize();
    let mut run = constructed.spawn();
    let (px, py) = coords(p);
    let (qx, qy) = coords(q.unwrap_or(p));
    run.set_ext(&constructed, exts[0], px);
    run.set_ext(&constructed, exts[1], py);
    run.set_ext(&constructed, exts[2], qx);
    run.set_ext(&constructed, exts[3], qy);
    let ok = run.execute(&constructed, 0);
    if !ok {
        return (false, false, None, nonzeros.len());
    }
    let valid = run.valid_witness(&constructed);
    (true, valid, Some((run.cs.getvar(r.x), run.cs.getvar(r.y))), nonzeros.len())
}

#[test]
fn ecadd_gadget_gives_the_sum() {
    let p = G1::random(OsRng).to_affine();
    let q = G1::random(OsRng).to_affine();
    let (ok, valid, r, n) = run_binary(p, Some(q));
    assert!(ok && valid);
    assert!(n == 1);
    assert!(r.unwrap() == coords((p + q).to_affine()));
}

#[test]
fn ecdouble_gadget_gives_twice_the_point() {
    let p = G1::random(OsRng).to_affine();
    let (ok, valid, r, n) = run_binary(p, None);
    assert!(ok && valid);
    assert!(n == 1);
    assert!(r.unwrap() == coords((p + p).to_affine()));
}

#[test]
fn ecadd_gadget_fails_on_equal_points() {
    // the third projective coordinate is zero, and the advice fails
    let p = G1::random(OsRng).to_affine();
    let (ok, _, _, _) = run_binary(p, Some(p));
    assert!(!ok);
}

#[test]
fn projective_formulas_match_the_curve() {
    let p = G1::random(OsRng).to_affine();
    let q = G1::random(OsRng).to_affine();
    let (px, py) = coords(p);
    let (qx, qy) = coords(q);
    let (x, y, z) = add_proj((px, py), (qx, qy));
    let zinv = z.invert().unwrap();
    assert!((x.mul(&zinv), y.mul(&zinv)) == coords((p + q).to_affine()));
    let (x, y, z) = double_proj((px, py));
    let zinv = z.invert().unwrap();
    assert!((x.mul(&zinv), y.mul(&zinv)) == coords((p + p).to_affine()));
}

#[test]
fn test_escalarmul_gadget() {
    let curve = grumpkin();
    let mut circuit = Circuit::new(10, 1);

    let pi_a_ext = (circuit.ext_val(1)[0], circuit.ext_val(1)[0]);
    let pi_b_ext = (circuit.ext_val(1)[0], circuit.ext_val(1)[0]); // a*(1+9+...+9^{nl-1})+b=0 must be checked out of band
    let pi_pt_ext = (circuit.ext_val(1)[0], circuit.ext_val(1)[0]);
    let pi_sc_ext = circuit.ext_val(1)[0];

    let x = input(&mut circuit, pi_a_ext.0, 0);
    let y = input(&mut circuit, pi_a_ext.1, 0);
    let a = EcAffinePoint::new(&mut circuit, x, y, curve);
    let x = input(&mut circuit, pi_b_ext.0, 0);
    let y = input(&mut circuit, pi_b_ext.1, 0);
    let b = EcAffinePoint::new(&mut circuit, x, y, curve);
    let x = input(&mut circuit, pi_pt_ext.0, 0);
    let y = input(&mut circuit, pi_pt_ext.1, 0);
    let pt = EcAffinePoint::new(&mut circuit, x, y, curve);
    let sc = input(&mut circuit, pi_sc_ext, 0);

    let mut nonzeros = vec![];
    let num_limbs = 81;

    let scmul = escalarmul_gadget_9(&mut circuit, sc, pt, num_limbs, 0, a, b, &mut nonzeros);

    nonzero_gadget(&mut circuit, &nonzeros, 9);
    let mut constructed = circuit.finalize();
    let mut instance = constructed.spawn();

    let pi_a = G1::random(OsRng).to_affine();
    instance.set_ext(&constructed, pi_a_ext.0, to_fe(pi_a.x));
    instance.set_ext(&constructed, pi_a_ext.1, to_fe(pi_a.y));

    // 1+9+81+...+9^{num_limbs - 1} = (9^{num_limbs}-1)/8
    let bscale = (GFr::from(9).pow([num_limbs as u64]) - GFr::ONE) * (GFr::from(8).invert().unwrap());
    let pi_b = -(G1::from(pi_a) * bscale).to_affine();
    instance.set_ext(&constructed, pi_b_ext.0, to_fe(pi_b.x));
    instance.set_ext(&constructed, pi_b_ext.1, to_fe(pi_b.y));

    let pi_pt = G1::random(OsRng).to_affine();
    instance.set_ext(&constructed, pi_pt_ext.0, to_fe(pi_pt.x));
    instance.set_ext(&constructed, pi_pt_ext.1, to_fe(pi_pt.y));

    instance.set_ext(&constructed, pi_sc_ext, Fe::from_u64(23));

    assert!(instance.execute(&constructed, 0));

    assert!(instance.valid_witness(&constructed));

    let answer = (instance.cs.getvar(scmul.x), instance.cs.getvar(scmul.y));

    assert!(answer == coords((pi_pt * GFr::from(23)).to_affine()));
}
