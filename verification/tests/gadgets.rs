use ff::{Field, PrimeField};
use group::{prime::PrimeCurveAffine, Curve};
use halo2curves::bn256::{Fr, G1Affine};
use rand_core::OsRng;
use protostar_works::arith_helper::shift64;
use protostar_works::combine::chunk_plan;
use protostar_works::commitment::{CkRound, CommitmentKey};
use protostar_works::field::Fe;
use protostar_works::folding::oracle::{trunc128, MockOracle, Oracle};
use protostar_works::folding::poseidon::constants_from_decimal;
use protostar_works::gadgets::bit_chunks::{chunkcheck, decompcheck as chunk_decompcheck, decompose};
use protostar_works::gadgets::bits::{bitcheck, decompcheck};
use protostar_works::gadgets::poseidon::{poseidon_partial_rounds_advice, poseidon_partial_rounds_constraint};
use protostar_works::gadgets::range::limbs;
use protostar_works::witness::RoundWtns;

fn to_fe(x: Fr) -> Fe {
    Fe::from_bytes(x.to_bytes()).unwrap()
}

fn random_fe() -> Fe {
    to_fe(Fr::random(OsRng))
}

fn u64_le(b: &[u8]) -> u64 {
    let mut buf = [0u8; 8];
    buf.copy_from_slice(b);
    u64::from_le_bytes(buf)
}

#[test]
fn test_byte_decomposition() {
    let x = random_fe();
    let tmp = x.to_bytes();
    let a0 = Fe::from_u64(u64_le(&tmp[0..8]));
    let a1 = shift64(Fe::from_u64(u64_le(&tmp[8..16])));
    let a2 = shift64(shift64(Fe::from_u64(u64_le(&tmp[16..24]))));
    let a3 = shift64(shift64(shift64(Fe::from_u64(u64_le(&tmp[24..32])))));
    assert!(x == a0.add(&a1).add(&a2).add(&a3));
}

#[test]
fn trunc128_keeps_the_low_128_bits() {
    let x = random_fe();
    let t = trunc128(x);
    let xb = x.to_bytes();
    let tb = t.to_bytes();
    assert!(tb[0..16] == xb[0..16]);
    assert!(tb[16..32].iter().all(|b| *b == 0));
    // small values are kept
    assert!(trunc128(Fe::from_u64(12345)) == Fe::from_u64(12345));
    // the oracle answers with 128-bit values
    let oracle = <MockOracle as Oracle<u32, Fe>>::new();
    let r = <MockOracle as Oracle<u32, Fe>>::response(&oracle);
    assert!(r.to_bytes()[16..32].iter().all(|b| *b == 0));
}

#[test]
fn limbs_read_back_the_digits() {
    // 25 = 7 + 2 * 9
    let l = limbs(Fe::from_u64(25), 9);
    assert!(l == vec![7, 2]);
    // 1 + 2 * 3 + 1 * 9 + 2 * 27
    assert!(limbs(Fe::from_u64(70), 3) == vec![1, 2, 1, 2]);
    assert!(limbs(Fe::from_u64(5), 7) == vec![5]);
}

#[test]
fn decompose_gives_the_bits() {
    // 6 = 0b110
    let bits = decompose(Fe::from_u64(6), 1, 3);
    assert!(bits.len() == 3);
    assert!(bits[0] == Fe::zero());
    assert!(bits[1] == Fe::one());
    assert!(bits[2] == Fe::one());
    for b in bits.iter() {
        assert!(bitcheck(&[*b])[0] == Fe::zero());
    }
    let mut args = vec![Fe::from_u64(6)];
    args.extend(bits.iter());
    assert!(decompcheck(&args)[0] == Fe::zero());
}

#[test]
fn chunks_of_k_bits() {
    // 0xABCD in chunks of 4 bits: D, C, B, A
    let c = decompose(Fe::from_u64(0xABCD), 4, 4);
    assert!(c == vec![Fe::from_u64(0xD), Fe::from_u64(0xC), Fe::from_u64(0xB), Fe::from_u64(0xA)]);
    // chunks of 3 bits across byte boundaries: 0b101_110_011_010 = 0xB9A
    let c = decompose(Fe::from_u64(0xB9A), 3, 5);
    assert!(c == vec![Fe::from_u64(2), Fe::from_u64(3), Fe::from_u64(6), Fe::from_u64(5), Fe::zero()]);
    // chunks check and recompose
    for x in c.iter() {
        assert!(chunkcheck(&[*x], 3)[0] == Fe::zero());
    }
    let mut args = vec![Fe::from_u64(0xB9A)];
    args.extend(c.iter());
    assert!(chunk_decompcheck(&args, 3)[0] == Fe::zero());
    // a random element in bytes: 32 chunks of 8 bits
    let x = random_fe();
    let c = decompose(x, 8, 40);
    assert!(c.len() == 32);
    let b = x.to_bytes();
    for i in 0..32 {
        assert!(c[i] == Fe::from_u64(b[i] as u64));
    }
}

#[test]
fn chunk_plan_covers_the_iterations() {
    for total in 0..40usize {
        for threads in 1..9usize {
            let plan = chunk_plan(total, threads);
            assert!(plan.len() == total.min(threads));
            let mut next = 0;
            for (k, (off, len)) in plan.iter().enumerate() {
                assert!(*off == next);
                assert!(*len == total / threads + if k < total % threads { 1 } else { 0 });
                next += len;
            }
            assert!(next == total);
        }
    }
    // 13 iterations on 4 threads: 4, 3, 3, 3
    assert!(chunk_plan(13, 4) == vec![(0, 4), (4, 3), (7, 3), (10, 3)]);
}

#[test]
fn constants_parse_decimal_numerals() {
    let c = vec![vec!["0", "1", "18586133768512220936620570745912940619677854269274689475585506675881198879027"]];
    let m = vec![vec![vec!["2", "10"], vec!["3", "4"]]];
    let k = constants_from_decimal(&c, &m);
    assert!(k.c[0][0] == Fe::zero());
    assert!(k.c[0][1] == Fe::one());
    let big = Fr::from_str_vartime("18586133768512220936620570745912940619677854269274689475585506675881198879027").unwrap();
    assert!(k.c[0][2] == to_fe(big));
    assert!(k.m[0][0][1] == Fe::from_u64(10));
    assert!(k.m[0][1][0] == Fe::from_u64(3));
    assert!(k.n_rounds_f == 8);
    assert!(k.n_rounds_p.len() == 16 && k.n_rounds_p[0] == 56 && k.n_rounds_p[15] == 68);
}

#[test]
fn round_commitment_is_the_multiexp() {
    let g = G1Affine::generator();
    let bases = vec![g, (g * Fr::from(2)).to_affine(), (g * Fr::from(5)).to_affine()];
    let ck = CkRound(bases);
    let privs = [Fr::from(3), Fr::from(7), Fr::from(11)];
    let wtns = RoundWtns {
        pubs: vec![Some(Fe::from_u64(9))],
        privs: privs.iter().map(|x| Some(to_fe(*x))).collect(),
    };
    let ct = ck.commit(&wtns);
    assert!(ct.pubs == vec![Fe::from_u64(9)]);
    // 3 + 14 + 55 = 72
    assert!(ct.pt == (g * Fr::from(72)).to_affine());
}

#[test]
fn partial_rounds_advice_satisfies_constraint() {
    let t = 3;
    let (nf, np) = (8, 5);
    let c: Vec<Fe> = (0..t * (np + nf)).map(|_| random_fe()).collect();
    let m: Vec<Vec<Fe>> = (0..t).map(|_| (0..t).map(|_| random_fe()).collect()).collect();
    let input: Vec<Fe> = (0..t).map(|_| random_fe()).collect();
    let adv = poseidon_partial_rounds_advice(&input, &c, &m, nf, np, t);
    assert!(adv.len() == np + t);
    let (fifth, out) = adv.split_at(np);
    let r = poseidon_partial_rounds_constraint(&input, out, fifth, fifth, &c, &m, nf, np, t);
    assert!(r.len() == np + t);
    assert!(r.iter().all(|x| *x == Fe::zero()));
    // a wrong output state is caught
    let mut bad = out.to_vec();
    bad[1] = bad[1].add(&Fe::one());
    let r = poseidon_partial_rounds_constraint(&input, &bad, fifth, fifth, &c, &m, nf, np, t);
    assert!(r[np + 1] == Fe::one().neg());
}
