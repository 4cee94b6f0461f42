//! Challenges: the oracle interface, and the truncation of a field element
//! to its low 128 bits.

use vstd::prelude::*;
use vstd::arithmetic::power2::pow2;
use crate::field::{Fe, le_val, pow256, field_modulus, lemma_split, lemma_low_bound, lemma_fm_canonical, lemma_fadd_fm};
use crate::arith_helper::shift64;

verus! {

/// An oracle: takes the prover's messages, answers with a challenge.
pub trait Oracle<ProverMsg, Response>: Sized {
    /// A new oracle.
    fn new() -> Self;

    /// Takes a message of the prover.
    fn update(&mut self, msg: ProverMsg);

    /// What holds of every challenge the oracle gives.
    spec fn valid_response(&self, r: Response) -> bool;

    /// The challenge.
    fn response(&self) -> (r: Response)
        ensures
            <Self as Oracle<ProverMsg, Response>>::valid_response(self, r),
    ;
}

/// The `u64` that the 8 little-endian bytes of `b` from `start` encode,
/// as `u64::from_le_bytes` reads them.
fn u64_le(b: &[u8; 32], start: usize) -> (r: u64)
    requires
        start + 8 <= 32,
    ensures
        r == le_val(b@.subrange(start as int, start + 8)),
{
    let mut acc: u64 = 0;
    let mut j: usize = start + 8;
    proof {
        assert(b@.subrange(j as int, start + 8) =~= Seq::<u8>::empty());
    }
    while j > start
        invariant
            start + 8 <= 32,
            start <= j <= start + 8,
            acc == le_val(b@.subrange(j as int, start + 8)),
        decreases j - start,
    {
        let ghost tail = b@.subrange(j as int, start + 8);
        let ghost s = b@.subrange(j - 1, start + 8);
        proof {
            assert(s.drop_first() =~= tail);
            lemma_low_bound(b@.subrange(j as int, start + 8), (start + 8 - j) as int);
            assert(tail.subrange(0, (start + 8 - j) as int) =~= tail);
            lemma_pow256_le((start + 8 - j) as nat);
        }
        acc = b[j - 1] as u64 + 256 * acc;
        j = j - 1;
    }
    acc
}

/// `256^i <= 2^56` for `i < 8`.
proof fn lemma_pow256_le(i: nat)
    requires
        i < 8,
    ensures
        pow256(i as int) <= 0x100000000000000,
{
    reveal_with_fuel(pow256, 9);
}

/// A uniformly random element, from `Fr::random` with the operating
/// system's generator; nothing is stated of the value.
#[verifier::external_body]
fn random_fe() -> (r: Fe) {
    let x = <halo2curves::bn256::Fr as ff::Field>::random(rand_core::OsRng);
    Fe::from_bytes(x.to_bytes()).unwrap()
}

/// An oracle that ignores the messages and answers with random 128-bit
/// challenges.
pub struct MockOracle {}

impl<ProverMsg> Oracle<ProverMsg, Fe> for MockOracle {
    fn new() -> (r: Self) {
        MockOracle {}
    }

    fn update(&mut self, msg: ProverMsg) {
    }

    /// Every challenge is below `2^128`.
    open spec fn valid_response(&self, r: Fe) -> bool {
        r.val() < pow2(128)
    }

    /// A random challenge below `2^128`.
    fn response(&self) -> (r: Fe) {
        let r = trunc128(random_fe());
        proof {
            vstd::arithmetic::power2::lemma_pow2_pos(128);
        }
        r
    }
}

/// The low 128 bits of `x`: the value of its first 16 bytes, read as two
/// little-endian `u64`s, the upper one shifted by 64 doublings.
pub fn trunc128(x: Fe) -> (r: Fe)
    ensures
        r.val() == x.val() % pow2(128),
{
    let bytes = x.to_bytes();
    let lo = u64_le(&bytes, 0);
    let hi = u64_le(&bytes, 8);
    let low = Fe::from_u64(lo);
    let high = shift64(Fe::from_u64(hi));
    let r = low.add(&high);
    proof {
        let s = bytes@;
        let s16 = s.subrange(0, 16);
        assert(pow256(8) == pow2(64) && pow256(16) == pow2(128)) by {
            reveal_with_fuel(pow256, 17);
            vstd::arithmetic::power2::lemma2_to64();
            vstd::arithmetic::power2::lemma_pow2_adds(64, 64);
        }
        assert(pow2(128) == pow2(64) * pow2(64)) by {
            vstd::arithmetic::power2::lemma_pow2_adds(64, 64);
        }
        assert(hi < pow2(64)) by {
            vstd::arithmetic::power2::lemma2_to64();
        }
        lemma_split(s16, 8);
        assert(s16.subrange(0, 8) =~= s.subrange(0, 8));
        assert(s16.subrange(8, 16) =~= s.subrange(8, 16));
        lemma_split(s, 16);
        lemma_low_bound(s, 16);
        let v16 = le_val(s16);
        let rest = le_val(s.subrange(16, 32));
        assert(v16 == lo + pow2(64) * hi);
        assert(x.val() == v16 + pow2(128) * rest);
        assert(rest * pow2(128) == pow2(128) * rest) by (nonlinear_arith);
        assert(v16 < pow2(128));
        vstd::arithmetic::div_mod::lemma_fundamental_div_mod_converse(x.val() as int, pow2(128) as int, rest as int, v16 as int);
        assert(field_modulus() > pow2(128)) by {
            vstd::arithmetic::power2::lemma2_to64();
            vstd::arithmetic::power2::lemma_pow2_adds(64, 64);
        }
        lemma_fm_canonical(lo as int);
        assert(hi * pow2(64) < pow2(128)) by (nonlinear_arith)
            requires
                hi < pow2(64),
                pow2(128) == pow2(64) * pow2(64),
        ;
        lemma_fm_canonical((hi * pow2(64)) as int);
        lemma_fadd_fm(lo as int, (hi * pow2(64)) as int);
        lemma_fm_canonical(v16 as int);
        assert(hi * pow2(64) == pow2(64) * hi) by (nonlinear_arith);
        assert(lo + hi * pow2(64) == v16);
    }
    r
}

} // verus!
