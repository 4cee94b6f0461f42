use group::{Curve as _, Group};
use halo2curves::bn256::Fr;
use halo2curves::grumpkin::{Fr as GFr, G1, G1Affine};
use rand_core::OsRng;
use protostar_works::field::Fe;
use protostar_works::gadgets::cyclefold::{construct_cyclefold_circuit, offset_multiple};

fn to_fe(x: Fr) -> Fe {
    Fe::from_bytes(x.to_bytes()).unwrap()
}

fn coords(p: G1Affine) -> (Fe, Fe) {
    (to_fe(p.x), to_fe(p.y))
}

#[test]
fn offset_multiple_is_the_geometric_sum() {
    let a = G1::random(OsRng).to_affine();
    let m = offset_multiple(coords(a), 5).unwrap();
    // 1 + 9 + 81 + 729 + 6561 = 7381
    assert!(m == coords((a * GFr::from(7381)).to_affine()));
}

#[test]
fn offset_multiple_refuses_a_point_off_the_curve() {
    assert!(offset_multiple((Fe::from_u64(1), Fe::from_u64(1)), 3).is_none());
}

#[test]
fn cyclefold_circuit_accepts_a_correct_sum() {
    let offset = G1::random(OsRng).to_affine();
    let mut c = construct_cyclefold_circuit(coords(offset)).unwrap();
    assert!(c.sc.addr == 0);
    let inc = G1::random(OsRng).to_affine();
    let acc = G1::random(OsRng).to_affine();
    // base-9 digits 1..8, none zero
    let sc: u64 = 0x1234_5678;
    let mut digits = vec![];
    let mut x = sc;
    while x > 0 {
        digits.push(x % 9);
        x /= 9;
    }
    let sc = if digits.contains(&0) { 23 } else { sc };
    let res = (acc + inc * GFr::from(sc)).to_affine();

    let mut run = c.constructed.spawn();
    run.set_ext(&c.constructed, c.sc, Fe::from_u64(sc));
    let (ix, iy) = coords(inc);
    let (ax, ay) = coords(acc);
    let (rx, ry) = coords(res);
    run.set_ext(&c.constructed, c.pt_inc.0, ix);
    run.set_ext(&c.constructed, c.pt_inc.1, iy);
    run.set_ext(&c.constructed, c.pt_acc.0, ax);
    run.set_ext(&c.constructed, c.pt_acc.1, ay);
    run.set_ext(&c.constructed, c.pt_res.0, rx);
    run.set_ext(&c.constructed, c.pt_res.1, ry);
    assert!(run.execute(&c.constructed, 0));
    assert!(run.valid_witness(&c.constructed));

    // a wrong result is refused
    let mut run = c.constructed.spawn();
    let wrong = (res + inc).to_affine();
    let (wx, wy) = coords(wrong);
    run.set_ext(&c.constructed, c.sc, Fe::from_u64(sc));
    run.set_ext(&c.constructed, c.pt_inc.0, ix);
    run.set_ext(&c.constructed, c.pt_inc.1, iy);
    run.set_ext(&c.constructed, c.pt_acc.0, ax);
    run.set_ext(&c.constructed, c.pt_acc.1, ay);
    run.set_ext(&c.constructed, c.pt_res.0, wx);
    run.set_ext(&c.constructed, c.pt_res.1, wy);
    assert!(run.execute(&c.constructed, 0));
    assert!(!run.valid_witness(&c.constructed));
}

#[test]
fn offset_multiple_of_one_limb_is_the_point() {
    let p = (Fe::from_u64(1), Fe::from_u64(1));
    assert!(offset_multiple(p, 1) == Some(p));
}

#[test]
fn cyclefold_circuit_refuses_an_offset_off_the_curve() {
    assert!(construct_cyclefold_circuit((Fe::from_u64(1), Fe::from_u64(1))).is_none());
}
