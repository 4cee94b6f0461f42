use ff::Field;
use halo2curves::bn256::Fr;
use rand_core::OsRng;
use protostar_works::constraint_system::{CommitKind, ProtoGalaxyConstraintSystem, Visibility};
use protostar_works::field::Fe;
use protostar_works::gatelib::{GateKind, LibGate};
use protostar_works::prover::ProtoGalaxyProver;
use protostar_works::run::protostar_challenges;
use protostar_works::witness::{compute_error_term, ProtostarLhsWtns, ProtostarWtns};

fn random_fe() -> Fe {
    Fe::from_bytes(Fr::random(OsRng).to_bytes()).unwrap()
}

fn mul_gate() -> LibGate {
    // a * b - c
    LibGate::new(GateKind::Arith { smul: Fe::one(), sa: Fe::zero(), sb: Fe::zero(), sconst: Fe::zero() })
}

/// `n` multiplication constraints on private variables `(x_k, y_k, z_k)`.
fn mul_system(n: usize) -> ProtoGalaxyConstraintSystem<LibGate> {
    let mut cs: ProtoGalaxyConstraintSystem<LibGate> = ProtoGalaxyConstraintSystem::new(1);
    for _ in 0..n {
        let v = cs.allocate(Visibility::Private, 3);
        cs.constrain(CommitKind::Group, &v, mul_gate());
    }
    cs
}

fn witness(privs: Vec<Fe>, challenges: Vec<Fe>) -> ProtostarWtns {
    ProtostarWtns {
        lhs: ProtostarLhsWtns { round_wtns: vec![privs], pubs: vec![vec![]], protostar_challenges: challenges },
        error: Fe::zero(),
    }
}

fn line(a: Fe, b: Fe, t: u64) -> Fe {
    a.add(&b.sub(&a).mul(&Fe::from_u64(t)))
}

#[test]
fn cross_terms_of_two_multiplications() {
    let cs = mul_system(2);
    let a_vals: Vec<Fe> = (0..6).map(|_| random_fe()).collect();
    let b_vals: Vec<Fe> = (0..6).map(|_| random_fe()).collect();
    let (ba, bb) = (random_fe(), random_fe());
    let a = witness(a_vals.clone(), vec![ba]);
    let b = witness(b_vals.clone(), vec![bb]);
    let (points, values) = ProtoGalaxyProver::new().interpolation_data(&a, &b, &cs);

    // degree 2 and one challenge: the points 2 and 3
    assert!(points.len() == 2);
    assert!(points[0] == Fe::from_u64(2) && points[1] == Fe::from_u64(3));
    assert!(values.len() == 2);

    // F(t) = e0(t) + beta(t) e1(t) on the line from a to b
    let f = |t: u64| {
        let v: Vec<Fe> = (0..6).map(|i| line(a_vals[i], b_vals[i], t)).collect();
        let e0 = v[0].mul(&v[1]).sub(&v[2]);
        let e1 = v[3].mul(&v[4]).sub(&v[5]);
        e0.add(&line(ba, bb, t).mul(&e1))
    };
    let (f0, f1) = (f(0), f(1));
    for (k, t) in [2u64, 3].iter().enumerate() {
        let lin = line(f0, f1, *t);
        let expected = f(*t).sub(&lin).mul(&Fe::from_u64(t * (t - 1)).invert().unwrap());
        assert!(values[k] == expected);
    }
}

#[test]
fn error_term_is_the_power_sum_of_the_outputs() {
    // five outputs need three challenges: beta, beta^2, beta^4
    let cs = mul_system(5);
    let vals: Vec<Fe> = (0..15).map(|_| random_fe()).collect();
    let beta = random_fe();
    let challenges = protostar_challenges(5, beta);
    assert!(challenges.len() == 3);
    assert!(challenges[1] == beta.mul(&beta));
    assert!(challenges[2] == beta.mul(&beta).mul(&beta.mul(&beta)));
    let w = witness(vals.clone(), challenges).lhs;
    let e = compute_error_term(&w, &cs);
    let mut expected = Fe::zero();
    let mut pow = Fe::one();
    for k in 0..5 {
        let out = vals[3 * k].mul(&vals[3 * k + 1]).sub(&vals[3 * k + 2]);
        expected = expected.add(&out.mul(&pow));
        pow = pow.mul(&beta);
    }
    assert!(e == expected);
}

#[test]
fn satisfied_witness_has_zero_error_term() {
    let cs = mul_system(3);
    let mut vals = vec![];
    for _ in 0..3 {
        let (x, y) = (random_fe(), random_fe());
        vals.extend([x, y, x.mul(&y)]);
    }
    let challenges = protostar_challenges(3, random_fe());
    let w = witness(vals, challenges).lhs;
    assert!(compute_error_term(&w, &cs) == Fe::zero());
}
