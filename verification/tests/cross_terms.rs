use protostar_works::cross_terms::{EvalLayout, SanitizeLayout, compute_layouts, compute_binomial_coefficients, extend, merge};
use protostar_works::combine::combine_cross_terms;
use protostar_works::field::Fe;

fn fe(x: u64) -> Fe {
    Fe::from_u64(x)
}

fn test_poly(x: u64) -> Fe {
    let x = fe(x);
    fe(5).add(&fe(6735).mul(&x))
        .add(&fe(420).mul(&x).mul(&x))
        .add(&fe(32687).mul(&x).mul(&x).mul(&x))
        .add(&fe(1212).mul(&x).mul(&x).mul(&x).mul(&x))
}

#[test]
fn test_layout() {
    let layout: Vec<EvalLayout> = [(33, 2), (17, 3), (7, 7)].into_iter().map(|(amount, deg)| EvalLayout { deg, amount }).collect();
    let layouts = compute_layouts(layout, 6);
    println!("{:?}", layouts);
    assert_eq!(layouts.len(), 7);
    let polys: Vec<usize> = layouts.iter().map(|l| l.num_polys()).collect();
    assert_eq!(polys, vec![57, 29, 15, 8, 4, 2, 1]);
    assert_eq!(layouts[6][2].deg, 13);
    assert_eq!(layouts[6][2].amount, 1);
}

#[test]
fn test_extension() {
    let vals: Vec<Fe> = (0..5).map(test_poly).collect();
    let binoms = compute_binomial_coefficients(10);
    println!("{:?}", binoms);
    assert!(extend(&vals, &binoms[5]) == test_poly(5));
}

#[test]
fn binomial_rows() {
    let b = compute_binomial_coefficients(8);
    assert_eq!(b[7], vec![1, 7, 21, 35, 35, 21, 7, 1]);
    let big = compute_binomial_coefficients(65);
    assert_eq!(big[64][32], 1832624140942590534);
}

#[test]
fn layout_sanity() {
    let l = vec![EvalLayout { deg: 2, amount: 3 }, EvalLayout { deg: 5, amount: 1 }];
    assert!(l.check());
    assert_eq!(l.total_size(), 3 * 3 + 6);
    assert_eq!(l.num_polys(), 4);
    let bad = vec![EvalLayout { deg: 5, amount: 3 }, EvalLayout { deg: 5, amount: 1 }];
    assert!(!bad.check());
}

#[test]
fn merge_adds_line_times_second() {
    // a(t) = t, b(t) = 1, z(t) = 3 + 2t: merged = t + (3 + 2t) in 0, 1, 2.
    let a = vec![fe(0), fe(1)];
    let b = vec![fe(1), fe(1)];
    let z = vec![fe(3), fe(5), fe(7)];
    let binoms = compute_binomial_coefficients(5);
    let mut target = vec![fe(0); 3];
    merge(&a, &b, &mut target, &z, &binoms[2]);
    assert!(target == vec![fe(3), fe(6), fe(9)]);
}

#[test]
fn combine_two_lines() {
    // Two polynomials of degree 1: p0(t) = t, p1(t) = 2. One challenge with
    // a(0) = 1, a(1) = 4, so a(t) = 1 + 3t. Result: p0 + p1 * a = t + 2 + 6t
    // in 0, 1, 2.
    let evals = vec![fe(0), fe(1), fe(2), fe(2)];
    let layout = vec![EvalLayout { deg: 1, amount: 2 }];
    let point = vec![[fe(1), fe(4)]];
    let r = combine_cross_terms(evals, layout, point);
    assert!(r == vec![fe(2), fe(9), fe(16)]);
}

#[test]
fn combine_three_lines_gives_the_final_layout() {
    // p0(t) = t, p1(t) = 2, p2(t) = 1; challenges a(t) = 1 + 3t and b(t) = 1.
    // Result: p0 + p1 a + p2 b = 7t + 3, of degree D + k = 3, in 0..=3.
    let evals = vec![fe(0), fe(1), fe(2), fe(2), fe(1), fe(1)];
    let layout = vec![EvalLayout { deg: 1, amount: 3 }];
    let point = vec![[fe(1), fe(4)], [fe(1), fe(1)]];
    let r = combine_cross_terms(evals, layout, point);
    assert!(r.len() == 4);
    assert!(r == vec![fe(3), fe(10), fe(17), fe(24)]);
}
