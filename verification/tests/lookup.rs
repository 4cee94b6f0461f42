use ff::Field;
use halo2curves::bn256::Fr;
use rand_core::{OsRng, RngCore};
use protostar_works::field::Fe;
use protostar_works::gadgets::lookup::{
    access_counts, fracsum_batches, invsum_batches, montgomery, sum_of_fractions, sum_of_fractions_with_nums,
};

const TEST_LEN: usize = 12;

fn to_fe(x: Fr) -> Fe {
    Fe::from_bytes(x.to_bytes()).unwrap()
}

fn random_fe() -> Fe {
    to_fe(Fr::random(OsRng))
}

fn inv(x: Fe) -> Fe {
    x.invert().unwrap()
}

#[test]
fn lookup_empty() {
    // the product of no values, and no partial products
    let (prod, partials) = montgomery(&[]);
    assert!(prod == Fe::one());
    assert!(partials.is_empty());

    // no fractions: the check holds of a zero sum
    let c = random_fe();
    assert!(sum_of_fractions(&[Fe::zero(), c], 0) == Fe::zero());
    assert!(sum_of_fractions_with_nums(&[Fe::zero(), c], &[], 0) == Fe::zero());
}

#[test]
fn one() {
    let points = [random_fe()];
    let (prod, partials) = montgomery(&points);
    assert!(prod == points[0]);
    assert!(partials.len() == 1 && partials[0] == Fe::one());
}

#[test]
fn lookup_random() {
    let points: Vec<Fe> = (0..TEST_LEN).map(|_| random_fe()).collect();
    let (res_mul, res_partials) = montgomery(&points);
    assert!(res_mul == points.iter().fold(Fe::one(), |acc, n| acc.mul(n)));
    assert!(points.len() == res_partials.len());
    assert!(points.iter().zip(res_partials.iter()).all(|(point, partial)| point.mul(partial) == res_mul));

    // access counts of values drawn from a table of 16 random entries
    let range = 16;
    let table: Vec<Fe> = (0..range).map(|_| random_fe()).collect();
    let picks: Vec<usize> = (0..TEST_LEN).map(|_| (OsRng.next_u64() % range as u64) as usize).collect();
    let vars: Vec<Fe> = picks.iter().map(|i| table[*i]).collect();
    let counts = access_counts(&vars, &table);
    assert!(counts.len() == range);
    for j in 0..range {
        let n = picks.iter().filter(|i| **i == j).count() as u64;
        assert!(counts[j] == Fe::from_u64(n));
    }
}

#[test]
fn lookup_random_eq() {
    // sum of inverses
    let c = random_fe();
    let points: Vec<Fe> = (0..TEST_LEN).map(|_| random_fe()).collect();
    let sum = points.iter().fold(Fe::zero(), |acc, p| acc.add(&inv(p.sub(&c))));
    let mut inputs = vec![sum, c];
    inputs.extend(points.iter());
    assert!(sum_of_fractions(&inputs, TEST_LEN) == Fe::zero());

    // sum of fractions with numerators
    let numerators: Vec<Fe> = (0..TEST_LEN).map(|_| random_fe()).collect();
    let sum = points
        .iter()
        .zip(numerators.iter())
        .fold(Fe::zero(), |acc, (p, n)| acc.add(&inv(p.sub(&c)).mul(n)));
    let mut inputs = vec![sum, c];
    inputs.extend(numerators.iter());
    assert!(sum_of_fractions_with_nums(&inputs, &points, TEST_LEN) == Fe::zero());

    // batches of the sum of inverses, rate 3, and their checks
    let rate = 3;
    let mut args = points.clone();
    args.push(c);
    let batches = invsum_batches(&args, TEST_LEN, rate);
    assert!(batches.len() == TEST_LEN / rate);
    let total = batches.iter().fold(Fe::zero(), |acc, b| acc.add(b));
    let expected = points.iter().fold(Fe::zero(), |acc, p| acc.add(&inv(p.sub(&c))));
    assert!(total == expected);
    for (i, b) in batches.iter().enumerate() {
        let mut check = vec![*b, c];
        check.extend(points[i * rate..(i + 1) * rate].iter());
        assert!(sum_of_fractions(&check, rate) == Fe::zero());
    }

    // batches of the sum of fractions, rate 3, and their checks
    let mut args = numerators.clone();
    args.push(c);
    let batches = fracsum_batches(&args, &points, TEST_LEN, rate);
    let total = batches.iter().fold(Fe::zero(), |acc, b| acc.add(b));
    let expected = points
        .iter()
        .zip(numerators.iter())
        .fold(Fe::zero(), |acc, (p, n)| acc.add(&inv(p.sub(&c)).mul(n)));
    assert!(total == expected);
    for (i, b) in batches.iter().enumerate() {
        let mut check = vec![*b, c];
        check.extend(numerators[i * rate..(i + 1) * rate].iter());
        assert!(sum_of_fractions_with_nums(&check, &points[i * rate..(i + 1) * rate], rate) == Fe::zero());
    }
}

#[test]
fn lookup_aware_constrain_random() {
    let c = random_fe();
    let fake_sum = random_fe();
    let points: Vec<Fe> = (0..TEST_LEN).map(|_| random_fe()).collect();
    let padded: Vec<Fe> = points.iter().map(|p| p.sub(&c)).collect();
    let real_denominator = padded.iter().fold(Fe::one(), |acc, n| acc.mul(n));

    let mut inputs = vec![fake_sum, c];
    inputs.extend(points.iter());
    let res = sum_of_fractions(&inputs, TEST_LEN);
    let real_sum = padded.iter().fold(Fe::zero(), |acc, p| acc.add(&inv(*p)));
    let real_numerator = real_sum.mul(&real_denominator);
    assert!(fake_sum.mul(&real_denominator).sub(&real_numerator) == res);

    let numerators: Vec<Fe> = (0..TEST_LEN).map(|_| random_fe()).collect();
    let mut inputs = vec![fake_sum, c];
    inputs.extend(numerators.iter());
    let res = sum_of_fractions_with_nums(&inputs, &points, TEST_LEN);
    let real_sum = padded.iter().zip(numerators.iter()).fold(Fe::zero(), |acc, (p, n)| acc.add(&inv(*p).mul(n)));
    let real_numerator = real_sum.mul(&real_denominator);
    assert!(fake_sum.mul(&real_denominator).sub(&real_numerator) == res);
}

#[test]
fn zero_denominator_is_skipped_by_the_inverse() {
    // a value equal to the challenge contributes nothing to the batch sums
    let c = random_fe();
    let a = random_fe();
    let batches = invsum_batches(&[c, a, c], 2, 2);
    assert!(batches.len() == 1);
    assert!(batches[0] == inv(a.sub(&c)));
}
