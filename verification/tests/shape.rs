use protostar_works::field::Fe;
use protostar_works::folding::shape::fold_error;

#[test]
fn fold_error_is_the_line_polynomial() {
    // (1 - t) e0 + t e1 + t (t - 1) v(t) at t = 2, e0 = 3, e1 = 5, v(t) = 1 + t:
    // -3 + 10 + 2 * 3 = 13
    let r = fold_error(Fe::from_u64(3), Fe::from_u64(5), &vec![Fe::one(), Fe::one()], Fe::from_u64(2));
    assert!(r == Fe::from_u64(13));
}
