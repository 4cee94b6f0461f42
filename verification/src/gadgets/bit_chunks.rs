//! The gates of the decomposition into chunks of `k` bits: `x` is below
//! `2^k`, and `x` is the number whose base-`2^k` digits the other inputs are.

use vstd::prelude::*;
use vstd::arithmetic::power2::pow2;
use crate::field::{Fe, fsub, fmul, fm, fprod, vals, lemma_fm_canonical, le_val, pow256, lemma_split, lemma_low_bound};
use crate::arith_helper::poly_eval;
use crate::gadgets::bits::horner_tail;
use crate::constraint_system::{Variable, Visibility};
use crate::circuit::{
    Circuit, pushed, is_advice, has_gate, lemma_gate_kept, lemma_grown_trans, lemma_room_step, lemma_room_left,
    lemma_extends_refl, lemma_fresh_kept,
};
use crate::gatelib::{LibGate, GateKind};
use crate::advice::AdviceKind;

verus! {

/// `prod_{i < 2^k} (x - i)` for the first input `x`: zero exactly on the
/// values below `2^k`.
pub fn chunkcheck(arg: &[Fe], k: usize) -> (r: Vec<Fe>)
    requires
        arg@.len() >= 1,
        pow2(k as nat) <= usize::MAX,
    ensures
        r@.len() == 1,
        r@[0].val() == fprod(Seq::new(pow2(k as nat), |i: int| fm(arg@[0].val() - i))),
{
    let x = arg[0];
    let ghost xv = x.val();
    // 2^k
    let mut n: usize = 1;
    let mut e: usize = 0;
    proof {
        vstd::arithmetic::power2::lemma2_to64();
    }
    while e < k
        invariant
            e <= k,
            n == pow2(e as nat),
            pow2(k as nat) <= usize::MAX,
        decreases k - e,
    {
        proof {
            vstd::arithmetic::power2::lemma_pow2_unfold((e + 1) as nat);
            if e + 1 < k {
                vstd::arithmetic::power2::lemma_pow2_strictly_increases((e + 1) as nat, k as nat);
            }
        }
        n = n * 2;
        e = e + 1;
    }
    let ghost terms = Seq::new(pow2(k as nat), |i: int| fm(xv - i));
    let mut acc = x;
    proof {
        x.lemma_val_lt();
        lemma_fm_canonical(xv as int);
        vstd::arithmetic::power2::lemma_pow2_pos(k as nat);
        assert(terms.take(1).drop_last() =~= Seq::<nat>::empty());
        assert(fprod(Seq::<nat>::empty()) == 1);
        vstd::arithmetic::div_mod::lemma_small_mod(xv, crate::field::field_modulus());
        assert(1 * xv == xv);
    }
    let mut i: usize = 1;
    while i < n
        invariant
            n == pow2(k as nat),
            1 <= i <= n,
            terms == Seq::new(pow2(k as nat), |j: int| fm(xv - j)),
            xv == x.val(),
            acc.val() == fprod(terms.take(i as int)),
        decreases n - i,
    {
        let d = x.sub(&Fe::from_u64(i as u64));
        acc = acc.mul(&d);
        proof {
            assert(terms.take(i + 1).drop_last() =~= terms.take(i as int));
        }
        i = i + 1;
    }
    proof {
        assert(terms.take(n as int) =~= terms);
    }
    let mut out: Vec<Fe> = Vec::new();
    out.push(acc);
    out
}

/// `sum_{i >= 1} arg[i] * 2^(k(i-1)) - arg[0]`: zero exactly when the other
/// inputs are the base-`2^k` digits of the first.
pub fn decompcheck(arg: &[Fe], k: usize) -> (r: Vec<Fe>)
    requires
        arg@.len() >= 1,
        k < 64,
    ensures
        r@.len() == 1,
        r@[0].val() == fsub(poly_eval(vals(arg@).skip(1), pow2(k as nat)), arg@[0].val()),
{
    let x = arg[0];
    let mut p: u64 = 1;
    let mut e: usize = 0;
    proof {
        vstd::arithmetic::power2::lemma2_to64();
    }
    while e < k
        invariant
            e <= k < 64,
            p == pow2(e as nat),
        decreases k - e,
    {
        proof {
            vstd::arithmetic::power2::lemma_pow2_unfold((e + 1) as nat);
            if e + 1 < 64 {
                vstd::arithmetic::power2::lemma_pow2_strictly_increases((e + 1) as nat, 64);
            }
            vstd::arithmetic::power2::lemma2_to64();
        }
        p = p * 2;
        e = e + 1;
    }
    let shift = Fe::from_u64(p);
    let acc = horner_tail(arg, &shift);
    let mut out: Vec<Fe> = Vec::new();
    out.push(acc.sub(&x));
    out
}

/// Chunk `t` of `k` bits of `v`: `floor(v / 2^(t k)) mod 2^k`.
pub open spec fn chunk_val(v: nat, k: nat, t: nat) -> nat {
    (v / pow2(t * k)) % pow2(k)
}

/// `256^i == 2^(8 i)`.
proof fn lemma_pow256_pow2(i: nat)
    ensures
        pow256(i as int) == pow2(8 * i),
    decreases i,
{
    if i > 0 {
        lemma_pow256_pow2((i - 1) as nat);
        vstd::arithmetic::power2::lemma_pow2_adds(8 * (i - 1) as nat, 8);
        vstd::arithmetic::power2::lemma2_to64();
        assert(8 * (i - 1) as nat + 8 == 8 * i);
        assert(pow2(8 * i) == pow2(8 * (i - 1) as nat) * 256);
    } else {
        vstd::arithmetic::power2::lemma2_to64();
    }
}

/// `2^e` for `e <= 16`.
fn pow2_u32(e: usize) -> (r: u32)
    requires
        e <= 16,
    ensures
        r == pow2(e as nat),
{
    let mut r: u32 = 1;
    let mut j: usize = 0;
    proof {
        vstd::arithmetic::power2::lemma2_to64();
    }
    while j < e
        invariant
            j <= e <= 16,
            r == pow2(j as nat),
        decreases e - j,
    {
        proof {
            vstd::arithmetic::power2::lemma_pow2_unfold((j + 1) as nat);
            vstd::arithmetic::power2::lemma_pow2_strictly_increases(j as nat, 16);
            vstd::arithmetic::power2::lemma2_to64();
        }
        r = r * 2;
        j = j + 1;
    }
    r
}

/// Bits `s..s + k` of the number whose little-endian bytes are `b`, `k <= 8`:
/// they lie in the two bytes from byte `s / 8` on.
fn bits_at(b: &[u8; 32], s: usize, k: usize) -> (r: u64)
    requires
        1 <= k <= 8,
        s < 256,
    ensures
        r == (le_val(b@) / pow2(s as nat)) % pow2(k as nat),
{
    let i = s / 8;
    let o = s % 8;
    let w: u32 = if i + 1 < 32 { b[i] as u32 + 256 * b[i + 1] as u32 } else { b[i] as u32 };
    let po = pow2_u32(o);
    let pk = pow2_u32(k);
    proof {
        vstd::arithmetic::power2::lemma_pow2_pos(o as nat);
        vstd::arithmetic::power2::lemma_pow2_pos(k as nat);
    }
    let r = (w / po) % pk;
    proof {
        let bs = b@;
        let v = le_val(bs);
        let a = le_val(bs.subrange(0, i as int));
        let tail = bs.subrange(i as int, 32);
        let t = le_val(tail);
        let p8i = pow2(8 * i as nat);
        lemma_split(bs, i as int);
        lemma_low_bound(bs, i as int);
        lemma_pow256_pow2(i as nat);
        vstd::arithmetic::power2::lemma_pow2_pos(8 * i as nat);
        assert(v == t * p8i + a) by (nonlinear_arith)
            requires
                v == a + p8i * t,
        ;
        vstd::arithmetic::div_mod::lemma_fundamental_div_mod_converse(v as int, p8i as int, t as int, a as int);
        // v / 2^s == (v / 2^(8i)) / 2^o
        vstd::arithmetic::power2::lemma_pow2_adds(8 * i as nat, o as nat);
        assert(8 * i + o == s);
        vstd::arithmetic::div_mod::lemma_div_denominator(v as int, p8i as int, po as int);
        // the tail is w plus a multiple of 2^16
        let rest = if i + 1 < 32 { le_val(tail.subrange(2, tail.len() as int)) } else { 0 };
        if i + 1 < 32 {
            lemma_split(tail, 2);
            assert(tail.subrange(0, 2).drop_first().drop_first() =~= Seq::<u8>::empty());
            assert(le_val(tail.subrange(0, 2)) == w) by {
                reveal_with_fuel(le_val, 3);
            }
            assert(pow256(2) == 65536) by {
                reveal_with_fuel(pow256, 3);
            }
        } else {
            assert(tail.drop_first() =~= Seq::<u8>::empty());
            assert(t == w) by {
                reveal_with_fuel(le_val, 2);
            }
        }
        assert(t == w + 65536 * rest);
        // 2^16 == 2^o * 2^(16 - o), and 2^(16 - o) == 2^k * 2^(16 - o - k)
        let hi = pow2((16 - o) as nat);
        let hk = pow2((16 - o - k) as nat);
        vstd::arithmetic::power2::lemma_pow2_adds(o as nat, (16 - o) as nat);
        vstd::arithmetic::power2::lemma_pow2_adds(k as nat, (16 - o - k) as nat);
        assert(pow2(16) == 65536) by {
            vstd::arithmetic::power2::lemma2_to64();
        }
        assert(65536 * rest == (hi * rest) * po) by (nonlinear_arith)
            requires
                65536 == po * hi,
        ;
        vstd::arithmetic::div_mod::lemma_hoist_over_denominator(w as int, (hi * rest) as int, po as nat);
        assert((t as int) / (po as int) == (w as int) / (po as int) + hi * rest);
        assert(hi * rest == pk * (hk * rest)) by (nonlinear_arith)
            requires
                hi == pk * hk,
        ;
        vstd::arithmetic::div_mod::lemma_mod_multiples_vanish((hk * rest) as int, (w as int) / (po as int), pk as int);
    }
    r as u64
}

/// The first `num_chunks` chunks of `k` bits of `x`, least significant
/// first, from its canonical encoding: as many as there are (`256 / k`,
/// rounded up) when fewer. `x` must fit the chunks asked for.
pub fn decompose(x: Fe, k: usize, num_chunks: usize) -> (r: Vec<Fe>)
    requires
        1 <= k <= 8,
        x.val() < pow2((k * num_chunks) as nat),
    ensures
        r@.len() == if num_chunks < (256 + k as int - 1) / (k as int) { num_chunks as int } else { (256 + k as int - 1) / (k as int) },
        forall|t: int| 0 <= t < r@.len() ==> (#[trigger] r@[t]).val() == chunk_val(x.val(), k as nat, t as nat),
{
    let bytes = x.to_bytes();
    let total = (256 + k - 1) / k;
    let n = if num_chunks < total { num_chunks } else { total };
    let mut chunks: Vec<Fe> = Vec::new();
    let mut t: usize = 0;
    while t < n
        invariant
            1 <= k <= 8,
            total == (256 + k as int - 1) / (k as int),
            n <= total,
            t <= n,
            le_val(bytes@) == x.val(),
            chunks@.len() == t,
            forall|j: int| 0 <= j < t ==> (#[trigger] chunks@[j]).val() == chunk_val(x.val(), k as nat, j as nat),
        decreases n - t,
    {
        proof {
            assert(t * k < 256) by (nonlinear_arith)
                requires
                    t < total,
                    total == (256 + k as int - 1) / (k as int),
                    1 <= k <= 8,
            ;
        }
        let c = bits_at(&bytes, t * k, k);
        chunks.push(Fe::from_u64(c));
        t = t + 1;
    }
    chunks
}

/// Decomposes `input` into `num_bits` chunks of `chunk_size` bits, least
/// significant first: an advice computes them (and fails on an input with
/// more chunks), each is checked to be below `2^chunk_size`, and together
/// they are checked to make up `input`.
pub fn bit_chunks_gadget(circuit: &mut Circuit, round: usize, num_bits: usize, chunk_size: usize, input: Variable) -> (r: Vec<Variable>)
    requires
        old(circuit).wf(),
        round < old(circuit).rounds(),
        old(circuit).has_var(input),
        input.round <= round,
        1 <= chunk_size <= 8,
        1 <= num_bits <= crate::advice::total_chunks(chunk_size as nat),
        old(circuit).room(2 * num_bits as nat + 1),
    ensures
        final(circuit).grown(old(circuit), 2 * num_bits as nat + 1),
        r@.len() == num_bits,
        final(circuit).fresh(old(circuit), r@, round as nat, Visibility::Private),
        pushed(final(circuit).ops_view(), old(circuit).ops_view(), round as int),
        is_advice(final(circuit).ops_view()[round as int].last(), seq![input], r@, AdviceKind::Chunks { k: chunk_size, n: num_bits }),
        forall|i: int| 0 <= i < num_bits ==> has_gate(final(circuit).cs.all_constraints(), GateKind::ChunkCheck { k: chunk_size }, seq![#[trigger] r@[i]]),
        has_gate(final(circuit).cs.all_constraints(), GateKind::ChunkDecomp { n: num_bits, k: chunk_size }, seq![input] + r@),
{
    let inp = vec![input];
    proof {
        assert(inp@ =~= seq![input]);
    }
    let bits = circuit.advice(round, AdviceKind::Chunks { k: chunk_size, n: num_bits }, inp);
    let ghost mid = *circuit;
    proof {
        lemma_room_step(old(circuit), &mid, num_bits as nat, num_bits as nat + 1);
        lemma_extends_refl(&mid);
        vstd::arithmetic::power2::lemma2_to64();
        assert(vstd::arithmetic::power2::pow2(chunk_size as nat) <= 256) by {
            if chunk_size < 8 {
                vstd::arithmetic::power2::lemma_pow2_strictly_increases(chunk_size as nat, 8);
            }
        }
        assert(crate::gatelib::chunk_wf(chunk_size));
    }
    let mut i: usize = 0;
    while i < num_bits
        invariant
            i <= num_bits,
            bits@.len() == num_bits,
            mid.room(num_bits as nat + 1),
            mid.fresh(old(circuit), bits@, round as nat, Visibility::Private),
            circuit.grown(&mid, i as nat),
            circuit.ops_view() == mid.ops_view(),
            circuit.rounds() == mid.rounds(),
            forall|t: int| 0 <= t < i ==> has_gate(circuit.cs.all_constraints(), GateKind::ChunkCheck { k: chunk_size }, seq![#[trigger] bits@[t]]),
            crate::gatelib::chunk_wf(chunk_size),
        decreases num_bits - i,
    {
        let ghost prev = *circuit;
        proof {
            lemma_room_left(&mid, &prev, i as nat, num_bits as nat + 1);
            lemma_fresh_kept(old(circuit), &mid, &prev, bits@, round as nat, Visibility::Private);
            assert(prev.has_var(bits@[i as int]));
            vstd::arithmetic::power2::lemma_pow2_pos(chunk_size as nat);
        }
        let one = vec![bits[i]];
        proof {
            assert(one@ =~= seq![bits@[i as int]]);
        }
        circuit.constrain(one.as_slice(), LibGate::new(GateKind::ChunkCheck { k: chunk_size }));
        proof {
            lemma_grown_trans(&mid, &prev, circuit, i as nat, 1);
            assert forall|t: int| 0 <= t < i + 1 implies has_gate(circuit.cs.all_constraints(), GateKind::ChunkCheck { k: chunk_size }, seq![
                #[trigger] bits@[t],
            ]) by {
                if t < i {
                    lemma_gate_kept(&prev, circuit, GateKind::ChunkCheck { k: chunk_size }, seq![bits@[t]]);
                }
            }
        }
        i = i + 1;
    }
    let ghost prev = *circuit;
    let mut io = vec![input];
    let mut a: usize = 0;
    while a < bits.len()
        invariant
            a <= bits@.len(),
            io@ == seq![input] + bits@.take(a as int),
        decreases bits@.len() - a,
    {
        io.push(bits[a]);
        a = a + 1;
        proof {
            assert(io@ =~= seq![input] + bits@.take(a as int));
        }
    }
    proof {
        assert(bits@.take(bits@.len() as int) =~= bits@);
        lemma_room_left(&mid, &prev, num_bits as nat, num_bits as nat + 1);
        lemma_fresh_kept(old(circuit), &mid, &prev, bits@, round as nat, Visibility::Private);
        assert forall|b: int| 0 <= b < io@.len() implies prev.has_var(#[trigger] io@[b]) by {
            if b > 0 {
                assert(io@[b] == bits@[b - 1]);
            }
        }
    }
    circuit.constrain(io.as_slice(), LibGate::new(GateKind::ChunkDecomp { n: num_bits, k: chunk_size }));
    proof {
        lemma_grown_trans(&mid, &prev, circuit, num_bits as nat, 1);
        lemma_grown_trans(old(circuit), &mid, circuit, num_bits as nat, num_bits as nat + 1);
        lemma_fresh_kept(old(circuit), &mid, circuit, bits@, round as nat, Visibility::Private);
        assert forall|t: int| 0 <= t < num_bits implies has_gate(circuit.cs.all_constraints(), GateKind::ChunkCheck { k: chunk_size }, seq![
            #[trigger] bits@[t],
        ]) by {
            lemma_gate_kept(&prev, circuit, GateKind::ChunkCheck { k: chunk_size }, seq![bits@[t]]);
        }
    }
    bits
}

} // verus!
