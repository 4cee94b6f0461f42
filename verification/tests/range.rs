use ff::Field;
use halo2curves::bn256::Fr;
use rand_core::OsRng;
use protostar_works::field::Fe;
use protostar_works::gadgets::range::{lagrange_choice, lagrange_choice_batched, rangecheck};

fn to_fe(x: Fr) -> Fe {
    Fe::from_bytes(x.to_bytes()).unwrap()
}

/// The degree of a polynomial map of one variable, of degree below `bound`,
/// read off the finite differences of its values in `0..bound`.
fn degree_of(bound: u64, f: &dyn Fn(Fe) -> Vec<Fe>) -> usize {
    let mut best = 0;
    let outputs: Vec<Vec<Fe>> = (0..bound).map(|x| f(Fe::from_u64(x))).collect();
    for k in 0..outputs[0].len() {
        let mut row: Vec<Fe> = outputs.iter().map(|o| o[k]).collect();
        let mut deg = 0;
        for d in 0..bound as usize {
            if row.iter().all(|v| *v == Fe::zero()) {
                break;
            }
            deg = d;
            row = row.windows(2).map(|w| w[1].sub(&w[0])).collect();
        }
        if deg > best {
            best = deg;
        }
    }
    best
}

#[test]
fn test_range_check() {
    for range in 1..10 {
        for i in 1..10 {
            let x = Fe::from_u64(i);
            assert!(if i < range { rangecheck(x, range) == Fe::zero() } else { rangecheck(x, range) != Fe::zero() });
        }
    }
}

#[test]
fn test_lagrange_choice() {
    for n in 2..12u64 {
        for t in 0..n {
            assert!(degree_of(32, &move |x| vec![lagrange_choice(x, t, n)]) == (n - 1) as usize);
            for x in 0..n {
                if x == t {
                    assert!(lagrange_choice(Fe::from_u64(x), t, n) == Fe::one());
                } else {
                    assert!(lagrange_choice(Fe::from_u64(x), t, n) == Fe::zero());
                }
            }
        }
    }
}

#[test]
fn test_lagrange_batch() {
    for n in 2..12usize {
        assert!(degree_of(32, &move |x| lagrange_choice_batched(x, n as u64)) == n - 1);
        for x in 0..n {
            let v = lagrange_choice_batched(Fe::from_u64(x as u64), n as u64);
            for t in 0..n {
                assert!(if t == x { v[t] == Fe::one() } else { v[t] == Fe::zero() })
            }
        }
    }
}

#[test]
fn batched_agrees_with_single_choice() {
    for n in 2..30u64 {
        let x = to_fe(Fr::random(OsRng));
        let v = lagrange_choice_batched(x, n);
        assert!(v.len() == n as usize);
        for t in 0..n {
            assert!(v[t as usize] == lagrange_choice(x, t, n));
        }
    }
}

#[test]
fn rangecheck_is_the_product_of_the_shifts() {
    let x = to_fe(Fr::random(OsRng));
    for range in 1..=50u64 {
        let mut expected = Fe::one();
        for j in 0..range {
            expected = expected.mul(&x.sub(&Fe::from_u64(j)));
        }
        assert!(rangecheck(x, range) == expected);
    }
    // 5 * 4 * 3 * 2 * 1 in 6, range 5
    assert!(rangecheck(Fe::from_u64(6), 5) == Fe::from_u64(720));
}

#[test]
fn lagrange_choice_interpolates_a_line() {
    // sum_t t * L_t(x) == x on 0..n, so also off it
    let x = to_fe(Fr::random(OsRng));
    for n in 2..20u64 {
        let v = lagrange_choice_batched(x, n);
        let mut acc = Fe::zero();
        for t in 0..n {
            acc = acc.add(&v[t as usize].mul(&Fe::from_u64(t)));
        }
        assert!(acc == x);
    }
}
