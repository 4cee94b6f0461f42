//! The gates of the bit decomposition: `x` is a bit, and `x` is the number
//! whose binary digits the other inputs are.

use vstd::prelude::*;
use crate::field::{Fe, fadd, fsub, fmul, vals};
use crate::arith_helper::poly_eval;
use crate::constraint_system::{Variable, Visibility};
use crate::circuit::{
    Circuit, pushed, is_advice, has_gate, lemma_gate_kept, lemma_grown_trans, lemma_room_step, lemma_room_left,
    lemma_extends_refl, lemma_fresh_kept,
};
use crate::gatelib::{LibGate, GateKind};
use crate::advice::AdviceKind;

verus! {

/// `x * x - x` for the first input `x`: zero exactly on bits.
pub fn bitcheck(arg: &[Fe]) -> (r: Vec<Fe>)
    requires
        arg@.len() >= 1,
    ensures
        r@.len() == 1,
        r@[0].val() == fsub(fmul(arg@[0].val(), arg@[0].val()), arg@[0].val()),
{
    let x = arg[0];
    let mut out: Vec<Fe> = Vec::new();
    out.push(x.mul(&x).sub(&x));
    out
}

/// Evaluates the digits `arg[1..]` (lowest first) in base `b`, from the top.
pub fn horner_tail(arg: &[Fe], b: &Fe) -> (r: Fe)
    requires
        arg@.len() >= 1,
    ensures
        r.val() == poly_eval(vals(arg@).skip(1), b.val()),
{
    let ghost c = vals(arg@).skip(1);
    let mut acc = Fe::zero();
    let l = arg.len();
    let mut i: usize = 1;
    proof {
        assert(c.skip(l - 1) =~= Seq::<nat>::empty());
    }
    while i < l
        invariant
            l == arg@.len(),
            l >= 1,
            c == vals(arg@).skip(1),
            1 <= i <= l,
            acc.val() == poly_eval(c.skip(l - i), b.val()),
        decreases l - i,
    {
        let ghost prev = acc.val();
        acc = acc.mul(b);
        acc = acc.add(&arg[l - i]);
        proof {
            let s = c.skip(l - i - 1);
            assert(s.drop_first() =~= c.skip(l - i));
            assert(s[0] == vals(arg@)[l - i]);
            crate::field::lemma_fmul_comm(prev, b.val());
        }
        i = i + 1;
    }
    proof {
        assert(c.skip(0) =~= c);
    }
    acc
}

/// `sum_{i >= 1} arg[i] * 2^(i-1) - arg[0]`: zero exactly when the other
/// inputs are the binary digits of the first.
pub fn decompcheck(arg: &[Fe]) -> (r: Vec<Fe>)
    requires
        arg@.len() >= 1,
    ensures
        r@.len() == 1,
        r@[0].val() == fsub(poly_eval(vals(arg@).skip(1), 2), arg@[0].val()),
{
    let x = arg[0];
    let two = Fe::from_u64(2);
    let acc = horner_tail(arg, &two);
    let mut out: Vec<Fe> = Vec::new();
    out.push(acc.sub(&x));
    out
}

/// Decomposes `input` into `num_bits` bits, least significant first: an
/// advice computes them (and fails on an input of more bits), each is
/// checked to be a bit, and together they are checked to make up `input`.
pub fn bit_decomposition_gadget(circuit: &mut Circuit, round: usize, num_bits: usize, input: Variable) -> (r: Vec<Variable>)
    requires
        old(circuit).wf(),
        round < old(circuit).rounds(),
        old(circuit).has_var(input),
        input.round <= round,
        1 <= num_bits <= 256,
        old(circuit).room(2 * num_bits as nat + 1),
    ensures
        final(circuit).grown(old(circuit), 2 * num_bits as nat + 1),
        r@.len() == num_bits,
        final(circuit).fresh(old(circuit), r@, round as nat, Visibility::Private),
        pushed(final(circuit).ops_view(), old(circuit).ops_view(), round as int),
        is_advice(final(circuit).ops_view()[round as int].last(), seq![input], r@, AdviceKind::Chunks { k: 1, n: num_bits }),
        forall|i: int| 0 <= i < num_bits ==> has_gate(final(circuit).cs.all_constraints(), GateKind::Bitcheck, seq![#[trigger] r@[i]]),
        has_gate(final(circuit).cs.all_constraints(), GateKind::BitDecomp { n: num_bits }, seq![input] + r@),
{
    let inp = vec![input];
    proof {
        assert(inp@ =~= seq![input]);
    }
    let bits = circuit.advice(round, AdviceKind::Chunks { k: 1, n: num_bits }, inp);
    let ghost mid = *circuit;
    proof {
        lemma_room_step(old(circuit), &mid, num_bits as nat, num_bits as nat + 1);
        lemma_extends_refl(&mid);
    }
    let mut i: usize = 0;
    while i < num_bits
        invariant
            i <= num_bits,
            bits@.len() == num_bits,
            mid.room(num_bits as nat + 1),
            mid.fresh(old(circuit), bits@, round as nat, Visibility::Private),
            circuit.grown(&mid, i as nat),
            circuit.ops_view() == mid.ops_view(),
            circuit.rounds() == mid.rounds(),
            forall|t: int| 0 <= t < i ==> has_gate(circuit.cs.all_constraints(), GateKind::Bitcheck, seq![#[trigger] bits@[t]]),
        decreases num_bits - i,
    {
        let ghost prev = *circuit;
        proof {
            lemma_room_left(&mid, &prev, i as nat, num_bits as nat + 1);
            lemma_fresh_kept(old(circuit), &mid, &prev, bits@, round as nat, Visibility::Private);
            assert(prev.has_var(bits@[i as int]));
        }
        let one = vec![bits[i]];
        proof {
            assert(one@ =~= seq![bits@[i as int]]);
        }
        circuit.constrain(one.as_slice(), LibGate::new(GateKind::Bitcheck));
        proof {
            lemma_grown_trans(&mid, &prev, circuit, i as nat, 1);
            assert forall|t: int| 0 <= t < i + 1 implies has_gate(circuit.cs.all_constraints(), GateKind::Bitcheck, seq![
                #[trigger] bits@[t],
            ]) by {
                if t < i {
                    lemma_gate_kept(&prev, circuit, GateKind::Bitcheck, seq![bits@[t]]);
                }
            }
        }
        i = i + 1;
    }
    let ghost prev = *circuit;
    let mut io = vec![input];
    let mut a: usize = 0;
    while a < bits.len()
        invariant
            a <= bits@.len(),
            io@ == seq![input] + bits@.take(a as int),
        decreases bits@.len() - a,
    {
        io.push(bits[a]);
        a = a + 1;
        proof {
            assert(io@ =~= seq![input] + bits@.take(a as int));
        }
    }
    proof {
        assert(bits@.take(bits@.len() as int) =~= bits@);
        lemma_room_left(&mid, &prev, num_bits as nat, num_bits as nat + 1);
        lemma_fresh_kept(old(circuit), &mid, &prev, bits@, round as nat, Visibility::Private);
        assert forall|b: int| 0 <= b < io@.len() implies prev.has_var(#[trigger] io@[b]) by {
            if b > 0 {
                assert(io@[b] == bits@[b - 1]);
            }
        }
    }
    circuit.constrain(io.as_slice(), LibGate::new(GateKind::BitDecomp { n: num_bits }));
    proof {
        lemma_grown_trans(&mid, &prev, circuit, num_bits as nat, 1);
        lemma_grown_trans(old(circuit), &mid, circuit, num_bits as nat, num_bits as nat + 1);
        lemma_fresh_kept(old(circuit), &mid, circuit, bits@, round as nat, Visibility::Private);
        assert forall|t: int| 0 <= t < num_bits implies has_gate(circuit.cs.all_constraints(), GateKind::Bitcheck, seq![
            #[trigger] bits@[t],
        ]) by {
            lemma_gate_kept(&prev, circuit, GateKind::Bitcheck, seq![bits@[t]]);
        }
    }
    bits
}

} // verus!
