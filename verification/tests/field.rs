use ff::Field;
use group::{Curve, Group};
use halo2curves::grumpkin;
use halo2curves::CurveAffine;
use halo2curves::bn256::Fr;
use rand_core::OsRng;
use protostar_works::field::Fe;
use protostar_works::field_utils::FieldUtils;
use protostar_works::gadgets::ecmul::{add_proj, double_proj};

fn to_fe(x: Fr) -> Fe {
    Fe::from_bytes(x.to_bytes()).unwrap()
}

fn to_fr(x: Fe) -> Fr {
    Fr::from_bytes(&x.to_bytes()).unwrap()
}

#[test]
fn test_scale() {
    let x = to_fe(Fr::random(OsRng));
    for y in 0..100 {
        assert!(x.scale(y) == x.mul(&Fe::from_u64(y)));
    }
}

#[test]
fn test_add() {
    let pt1 = grumpkin::G1::random(OsRng).to_affine();
    let pt2 = grumpkin::G1::random(OsRng).to_affine();
    let pt1_ = (to_fe(pt1.x), to_fe(pt1.y));
    let pt2_ = (to_fe(pt2.x), to_fe(pt2.y));
    let pt3_ = add_proj(pt1_, pt2_);
    let r3_inv = pt3_.2.invert().unwrap();
    let pt3 = grumpkin::G1Affine::from_xy(to_fr(pt3_.0.mul(&r3_inv)), to_fr(pt3_.1.mul(&r3_inv))).unwrap();
    assert!(Into::<grumpkin::G1>::into(pt3) == grumpkin::G1::from(pt1) + grumpkin::G1::from(pt2));
}

#[test]
fn test_double() {
    let pt = grumpkin::G1::random(OsRng).to_affine();
    let pt_ = (to_fe(pt.x), to_fe(pt.y));
    let pt2_ = double_proj(pt_);
    let rinv = pt2_.2.invert().unwrap();
    let pt2 = grumpkin::G1Affine::from_xy(to_fr(pt2_.0.mul(&rinv)), to_fr(pt2_.1.mul(&rinv))).unwrap();
    assert!(Into::<grumpkin::G1>::into(pt2) == grumpkin::G1::from(pt) + grumpkin::G1::from(pt));
}

#[test]
fn field_ops_agree_with_fr() {
    for _ in 0..20 {
        let a = Fr::random(OsRng);
        let b = Fr::random(OsRng);
        assert!(to_fr(to_fe(a).add(&to_fe(b))) == a + b);
        assert!(to_fr(to_fe(a).sub(&to_fe(b))) == a - b);
        assert!(to_fr(to_fe(a).mul(&to_fe(b))) == a * b);
        assert!(to_fr(to_fe(a).neg()) == -a);
    }
    assert!(Fe::zero().invert().is_none());
    let x = Fe::from_u64(12345);
    assert!(x.mul(&x.invert().unwrap()) == Fe::one());
}

#[test]
fn bytes_roundtrip_and_range() {
    let x = Fe::from_u64(0x0102030405060708);
    let b = x.to_bytes();
    assert_eq!(b[0], 8);
    assert_eq!(b[7], 1);
    assert!(Fe::from_bytes(b).unwrap() == x);
    // The modulus itself is not a canonical encoding.
    let m = (-Fr::ONE).to_bytes();
    let mut p = m;
    p[0] += 1;
    assert!(Fe::from_bytes(p).is_none());
    assert!(Fe::from_bytes(m).is_some());
}

#[test]
fn half_powers_and_squares() {
    let two = Fe::from_u64(2);
    assert!(Fe::half_pow(3).mul(&Fe::from_u64(8)) == Fe::one());
    // (5/2)^2 * 4 == 25
    assert!(Fe::half_square(5).mul(&Fe::from_u64(4)) == Fe::from_u64(25));
    assert!(two.double() == Fe::from_u64(4));
    assert!(two.square() == Fe::from_u64(4));
    assert!(two.cube() == Fe::from_u64(8));
}

#[test]
fn inverse_lagrange_products() {
    // prod_{i < 4, i != 1} (1 - i) = (1)(-1)(-2) = 2
    assert!(Fe::inv_lagrange_prod(1, 4).mul(&Fe::from_u64(2)) == Fe::one());
    // prod_{i < 3, i != 0} (0 - i) = 2
    assert!(Fe::inv_lagrange_prod(0, 3).mul(&Fe::from_u64(2)) == Fe::one());
}
