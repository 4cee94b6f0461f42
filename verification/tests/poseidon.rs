use std::rc::Rc;

use ff::Field;
use halo2curves::bn256::Fr;
use rand_core::OsRng;
use protostar_works::circuit::Circuit;
use protostar_works::field::Fe;
use protostar_works::folding::poseidon::{Constants, Poseidon};
use protostar_works::gadgets::input::input;
use protostar_works::gadgets::poseidon::{poseidon_gadget, poseidon_gadget_internal, poseidon_gadget_mixstrat};

fn random_fe() -> Fe {
    Fe::from_bytes(Fr::random(OsRng).to_bytes()).unwrap()
}

/// Random constants for widths 2 and 3, with 8 full rounds and 5 or 6
/// partial rounds.
fn random_poseidon() -> Rc<Poseidon> {
    let nf = 8;
    let nps = vec![5, 6];
    let mut c = Vec::new();
    let mut m = Vec::new();
    for (w, np) in nps.iter().enumerate() {
        let t = w + 2;
        c.push((0..t * (nf + np)).map(|_| random_fe()).collect::<Vec<Fe>>());
        m.push((0..t).map(|_| (0..t).map(|_| random_fe()).collect::<Vec<Fe>>()).collect::<Vec<Vec<Fe>>>());
    }
    Rc::new(Poseidon { constants: Constants { c, m, n_rounds_f: nf, n_rounds_p: nps } })
}

/// Hashes `values` with the in-circuit hash that `build` adds, and returns
/// the value of its output after a run whose witness is valid.
fn run_hash<F>(values: &[Fe], build: F) -> Fe
where
    F: Fn(&mut Circuit, Vec<protostar_works::constraint_system::Variable>) -> protostar_works::constraint_system::Variable,
{
    let mut circuit = Circuit::new(25, 1);
    let exts = circuit.ext_val(values.len());
    let vars: Vec<_> = exts.iter().map(|e| input(&mut circuit, *e, 0)).collect();
    let ret = build(&mut circuit, vars);
    let mut constructed = circuit.finalize();
    let mut run = constructed.spawn();
    for (e, v) in exts.iter().zip(values) {
        run.set_ext(&constructed, *e, *v);
    }
    assert!(run.execute(&constructed, 0));
    assert!(run.valid_witness(&constructed));
    run.cs.getvar(ret)
}

#[test]
fn hash_gadget_one_round_per_poly_gives_the_hash() {
    let cfg = random_poseidon();
    let x = random_fe();
    let got = run_hash(&[x], |c, v| poseidon_gadget_internal(c, &cfg, 1, 0, v));
    assert!(got == cfg.hash(vec![x]));
}

#[test]
fn hash_gadget_two_rounds_per_poly_gives_the_hash() {
    let cfg = random_poseidon();
    let (x, y) = (random_fe(), random_fe());
    let got = run_hash(&[x, y], |c, v| poseidon_gadget_internal(c, &cfg, 2, 0, v));
    assert!(got == cfg.hash(vec![x, y]));
}

#[test]
fn hash_gadget_mixed_strategy_gives_the_hash() {
    let cfg = random_poseidon();
    let x = random_fe();
    let got = run_hash(&[x], |c, v| poseidon_gadget_mixstrat(c, &cfg, 0, v));
    assert!(got == cfg.hash(vec![x]));
}

#[test]
fn chunked_hash_gadget_hashes_the_chunks_in_front() {
    let cfg = random_poseidon();
    let (x, y, z) = (random_fe(), random_fe(), random_fe());
    let got = run_hash(&[x, y, z], |c, v| poseidon_gadget(c, &cfg, 0, 2, &v));
    assert!(got == cfg.hash(vec![cfg.hash(vec![x, y]), z]));
}
