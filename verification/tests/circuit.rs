use ff::Field;
use halo2curves::bn256::Fr;
use rand_core::OsRng;
use protostar_works::advice::AdviceKind;
use protostar_works::circuit::Circuit;
use protostar_works::constraint_system::{Variable, Visibility};
use protostar_works::field::Fe;
use protostar_works::gadgets::arith::{add_gadget, eq_gadget, mul_gadget, read_const_gadget};
use protostar_works::gadgets::bit_chunks::bit_chunks_gadget;
use protostar_works::gadgets::bits::bit_decomposition_gadget;
use protostar_works::gadgets::input::input;
use protostar_works::gadgets::lc::{lc, qc, sum_gadget};
use protostar_works::gadgets::nonzero_check::nonzero_gadget;
use protostar_works::gadgets::range::{choice_gadget, limb_decompose_gadget, limb_decompose_unchecked, VarSmall};
use protostar_works::gatelib::PolyKind;
use protostar_works::folding::poseidon::{Constants, Poseidon};
use protostar_works::gadgets::poseidon::poseidon_gadget;
use std::rc::Rc;

fn random_fe() -> Fe {
    Fe::from_bytes(Fr::random(OsRng).to_bytes()).unwrap()
}

#[test]
fn test_circuit_builder() {
    let mut circuit = Circuit::new(2, 1);
    let public_input_source = circuit.ext_val(1)[0];

    let input = input(&mut circuit, public_input_source, 0);
    let sq1 = circuit.apply(0, PolyKind::Prod { n: 2 }, vec![input, input]);
    let _ = circuit.apply_pub(0, PolyKind::Prod { n: 2 }, vec![sq1[0], sq1[0]]);

    let mut constructed = circuit.finalize();
    let mut instance = constructed.spawn();

    instance.set_ext(&constructed, public_input_source, Fe::from_u64(2));

    assert!(instance.execute(&constructed, 0));

    let var = Variable { visibility: Visibility::Public, round: 0, index: 2 };
    assert!(Fe::from_u64(16) == instance.cs.getvar(var));
}

#[test]
fn test_bit_decomposition() {
    let mut circuit = Circuit::new(2, 1);
    let pi_ext = circuit.ext_val(1)[0];

    let pi = input(&mut circuit, pi_ext, 0);

    let bits = bit_decomposition_gadget(&mut circuit, 0, 3, pi);

    let mut circuit = circuit.finalize();
    let mut run = circuit.spawn();
    run.set_ext(&circuit, pi_ext, Fe::from_u64(6));
    assert!(run.execute(&circuit, 0));

    assert!(run.valid_witness(&circuit));

    assert!(bits.len() == 3);
    assert!(run.cs.getvar(bits[0]) == Fe::zero());
    assert!(run.cs.getvar(bits[1]) == Fe::one());
    assert!(run.cs.getvar(bits[2]) == Fe::one());
}

#[test]
fn test_limb_decompose_gadget() {
    let mut circuit = Circuit::new(9, 1);
    let pi_ext = circuit.ext_val(1)[0];
    let pi = input(&mut circuit, pi_ext, 0);

    let limbs = limb_decompose_gadget(&mut circuit, 9, 0, 2, pi);

    let mut circuit = circuit.finalize();
    let mut run = circuit.spawn();
    run.set_ext(&circuit, pi_ext, Fe::from_u64(25));
    assert!(run.execute(&circuit, 0));

    assert!(run.valid_witness(&circuit));

    assert!(limbs.len() == 2);
    assert!(run.cs.getvar(limbs[0].var) == Fe::from_u64(7));
    assert!(run.cs.getvar(limbs[1].var) == Fe::from_u64(2));
}

#[test]
fn test_choice_gadget() {
    let mut circuit = Circuit::new(10, 1);

    let mut pi_ext = vec![];
    let pi_id_ext = circuit.ext_val(1)[0];
    for _ in 0..9 {
        pi_ext.push(circuit.ext_val(3));
    }

    let mut pi: Vec<Vec<Variable>> = vec![];
    for i in 0..9 {
        pi.push(vec![]);
        for j in 0..3 {
            let v = input(&mut circuit, pi_ext[i][j], 0);
            pi[i].push(v);
        }
    }
    let pi_id = input(&mut circuit, pi_id_ext, 0);

    let chosen = choice_gadget(&mut circuit, &pi, VarSmall::new_unchecked(pi_id, 9), 0);

    let mut circuit = circuit.finalize();
    let mut run = circuit.spawn();
    run.set_ext(&circuit, pi_id_ext, Fe::from_u64(5));
    for i in 0..9 {
        for j in 0..3 {
            run.set_ext(&circuit, pi_ext[i][j], random_fe());
        }
    }
    assert!(run.execute(&circuit, 0));

    assert!(run.valid_witness(&circuit));

    assert!(chosen.len() == 3);

    for j in 0..3 {
        assert!(run.cs.getvar(pi[5][j]) == run.cs.getvar(chosen[j]))
    }
}

#[test]
fn an_input_too_large_for_its_bits_fails_the_advice() {
    let mut circuit = Circuit::new(2, 1);
    let pi_ext = circuit.ext_val(1)[0];
    let pi = input(&mut circuit, pi_ext, 0);
    let _bits = bit_decomposition_gadget(&mut circuit, 0, 3, pi);
    let mut circuit = circuit.finalize();
    let mut run = circuit.spawn();
    run.set_ext(&circuit, pi_ext, Fe::from_u64(9));
    assert!(!run.execute(&circuit, 0));
}

#[test]
fn an_unassigned_external_value_fails_the_run() {
    let mut circuit = Circuit::new(2, 1);
    let pi_ext = circuit.ext_val(1)[0];
    let _pi = input(&mut circuit, pi_ext, 0);
    let mut circuit = circuit.finalize();
    let mut run = circuit.spawn();
    assert!(!run.execute(&circuit, 0));
}

#[test]
fn chunks_of_two_bits_make_up_the_input() {
    let mut circuit = Circuit::new(4, 1);
    let pi_ext = circuit.ext_val(1)[0];
    let pi = input(&mut circuit, pi_ext, 0);
    let chunks = bit_chunks_gadget(&mut circuit, 0, 3, 2, pi);
    let mut circuit = circuit.finalize();
    let mut run = circuit.spawn();
    // 45 = 1 + 3 * 4 + 2 * 16
    run.set_ext(&circuit, pi_ext, Fe::from_u64(45));
    assert!(run.execute(&circuit, 0));
    assert!(run.valid_witness(&circuit));
    assert!(run.cs.getvar(chunks[0]) == Fe::from_u64(1));
    assert!(run.cs.getvar(chunks[1]) == Fe::from_u64(3));
    assert!(run.cs.getvar(chunks[2]) == Fe::from_u64(2));
}

#[test]
fn arithmetic_gadgets_compute_and_check() {
    let mut circuit = Circuit::new(2, 1);
    let ext = circuit.ext_val(2);
    let a = input(&mut circuit, ext[0], 0);
    let b = input(&mut circuit, ext[1], 0);
    let s = add_gadget(&mut circuit, a, b, 0);
    let p = mul_gadget(&mut circuit, a, b, 0);
    let c = read_const_gadget(&mut circuit, Fe::from_u64(12), 0);
    eq_gadget(&mut circuit, p, c);
    let q = qc(&mut circuit, &[a, b], &[b, a], 0);
    let l = lc(&mut circuit, &[Fe::from_u64(2), Fe::from_u64(5)], &[a, b], 0);
    let t = sum_gadget(&mut circuit, &[a, b, s], 0);
    let mut circuit = circuit.finalize();
    let mut run = circuit.spawn();
    run.set_ext(&circuit, ext[0], Fe::from_u64(3));
    run.set_ext(&circuit, ext[1], Fe::from_u64(4));
    assert!(run.execute(&circuit, 0));
    assert!(run.valid_witness(&circuit));
    assert!(run.cs.getvar(s) == Fe::from_u64(7));
    assert!(run.cs.getvar(p) == Fe::from_u64(12));
    assert!(run.cs.getvar(q) == Fe::from_u64(24));
    assert!(run.cs.getvar(l) == Fe::from_u64(26));
    assert!(run.cs.getvar(t) == Fe::from_u64(14));
}

#[test]
fn a_failed_equality_is_an_invalid_witness() {
    let mut circuit = Circuit::new(2, 1);
    let ext = circuit.ext_val(2);
    let a = input(&mut circuit, ext[0], 0);
    let b = input(&mut circuit, ext[1], 0);
    eq_gadget(&mut circuit, a, b);
    let mut circuit = circuit.finalize();
    let mut run = circuit.spawn();
    run.set_ext(&circuit, ext[0], Fe::from_u64(3));
    run.set_ext(&circuit, ext[1], Fe::from_u64(4));
    assert!(run.execute(&circuit, 0));
    assert!(!run.valid_witness(&circuit));
}

#[test]
fn nonzero_values_pass_and_a_zero_fails() {
    let mut circuit = Circuit::new(3, 1);
    let ext = circuit.ext_val(4);
    let mut vars = vec![];
    for k in 0..4 {
        vars.push(input(&mut circuit, ext[k], 0));
    }
    nonzero_gadget(&mut circuit, &vars, 3);
    let mut circuit = circuit.finalize();

    let mut run = circuit.spawn();
    for k in 0..4 {
        run.set_ext(&circuit, ext[k], Fe::from_u64(k as u64 + 1));
    }
    assert!(run.execute(&circuit, 0));
    assert!(run.valid_witness(&circuit));

    let mut run = circuit.spawn();
    for k in 0..4 {
        run.set_ext(&circuit, ext[k], Fe::from_u64(k as u64));
    }
    assert!(!run.execute(&circuit, 0));
}

#[test]
fn runs_get_increasing_indices_and_free_their_slots() {
    let mut circuit = Circuit::new(2, 1);
    let _ = circuit.advice(0, AdviceKind::Const { c: Fe::from_u64(5) }, vec![]);
    let mut circuit = circuit.finalize();
    let run1 = circuit.spawn();
    let run2 = circuit.spawn();
    assert!(run1.run_idx.muid == 0);
    assert!(run2.run_idx.muid == 1);
    assert!(run1.run_idx.slot != run2.run_idx.slot);
    let slot1 = run1.run_idx.slot;
    let _w = run1.finish(&mut circuit);
    let run3 = circuit.spawn();
    assert!(run3.run_idx.slot == slot1);
    assert!(run3.run_idx.muid == 2);
}

#[test]
fn challenges_are_repeated_squares() {
    let mut circuit = Circuit::new(2, 1);
    let ext = circuit.ext_val(1);
    let a = input(&mut circuit, ext[0], 0);
    for _ in 0..5 {
        let _ = mul_gadget(&mut circuit, a, a, 0);
    }
    let mut circuit = circuit.finalize();
    // five nonlinear outputs: three challenges
    let ch = circuit.perepare_protostar_chellanges(Fe::from_u64(3));
    assert!(ch.len() == 3);
    assert!(ch[0] == Fe::from_u64(3));
    assert!(ch[1] == Fe::from_u64(9));
    assert!(ch[2] == Fe::from_u64(81));
    let mut run = circuit.spawn();
    run.set_ext(&circuit, ext[0], Fe::from_u64(2));
    assert!(run.execute(&circuit, 0));
    let w = run.end(&circuit, Fe::from_u64(3));
    assert!(w.lhs.protostar_challenges.len() == 3);
    assert!(w.error == Fe::zero());
}

fn random_poseidon(widths: usize, nf: usize, np: usize) -> Poseidon {
    let mut c = vec![];
    let mut m = vec![];
    for t in 2..widths + 2 {
        c.push((0..t * (nf + np)).map(|_| random_fe()).collect::<Vec<Fe>>());
        m.push((0..t).map(|_| (0..t).map(|_| random_fe()).collect::<Vec<Fe>>()).collect::<Vec<Vec<Fe>>>());
    }
    Poseidon { constants: Constants { c, m, n_rounds_f: nf, n_rounds_p: vec![np; widths] } }
}

#[test]
fn chunked_poseidon_hashes_pairs_then_the_rest() {
    let cfg = Rc::new(random_poseidon(2, 8, 5));
    let mut circuit = Circuit::new(5, 1);
    let exts = circuit.ext_val(3);
    let a = input(&mut circuit, exts[0], 0);
    let b = input(&mut circuit, exts[1], 0);
    let c = input(&mut circuit, exts[2], 0);
    let h = poseidon_gadget(&mut circuit, &cfg, 0, 2, &[a, b, c]);

    let mut constructed = circuit.finalize();
    let mut run = constructed.spawn();
    let (va, vb, vc) = (random_fe(), random_fe(), random_fe());
    run.set_ext(&constructed, exts[0], va);
    run.set_ext(&constructed, exts[1], vb);
    run.set_ext(&constructed, exts[2], vc);
    assert!(run.execute(&constructed, 0));
    assert!(run.valid_witness(&constructed));

    let inner = cfg.hash(vec![va, vb]);
    let expected = cfg.hash(vec![inner, vc]);
    assert!(run.cs.getvar(h) == expected);
}

#[test]
fn chunked_poseidon_of_one_input_is_the_input() {
    let cfg = Rc::new(random_poseidon(2, 8, 5));
    let mut circuit = Circuit::new(5, 1);
    let ext = circuit.ext_val(1)[0];
    let a = input(&mut circuit, ext, 0);
    let h = poseidon_gadget(&mut circuit, &cfg, 0, 2, &[a]);
    assert!(h == a);
}

#[test]
fn limb_decompose_unchecked_takes_large_bases() {
    let mut circuit = Circuit::new(2, 1);
    let pi_ext = circuit.ext_val(1)[0];
    let pi = input(&mut circuit, pi_ext, 0);
    let limbs = limb_decompose_unchecked(&mut circuit, 60, 0, 3, pi);

    let mut circuit = circuit.finalize();
    let mut run = circuit.spawn();
    run.set_ext(&circuit, pi_ext, Fe::from_u64(125));
    assert!(run.execute(&circuit, 0));
    assert!(run.valid_witness(&circuit));

    assert!(limbs.len() == 3);
    assert!(run.cs.getvar(limbs[0]) == Fe::from_u64(5));
    assert!(run.cs.getvar(limbs[1]) == Fe::from_u64(2));
    assert!(run.cs.getvar(limbs[2]) == Fe::zero());
}

#[test]
fn limb_decompose_unchecked_fails_on_too_many_digits() {
    let mut circuit = Circuit::new(2, 1);
    let pi_ext = circuit.ext_val(1)[0];
    let pi = input(&mut circuit, pi_ext, 0);
    let _ = limb_decompose_unchecked(&mut circuit, 9, 0, 1, pi);

    let mut circuit = circuit.finalize();
    let mut run = circuit.spawn();
    run.set_ext(&circuit, pi_ext, Fe::from_u64(25));
    assert!(!run.execute(&circuit, 0));
}
