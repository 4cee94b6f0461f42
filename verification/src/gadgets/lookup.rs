//! The arithmetic of the log-up lookup: products that skip one factor, sums
//! of fractions, and the values the lookup advice computes.

use vstd::prelude::*;
use crate::field::{
    Fe, fadd, fsub, fmul, fsum, fprod, finv, vals, field_modulus, is_inverse, lemma_fprod_concat, lemma_fprod_lt,
    lemma_vals_lt, lemma_fmul_assoc, lemma_finv_unique,
};
use crate::gadgets::lc::{inner_prod, sum_arr, pointwise, sum_gadget};
use crate::constraint_system::{Variable, Visibility, ExternalValue, copy_vars};
use crate::circuit::{
    Circuit, Operation, pushed, is_advice, has_gate, has_gate_with, lemma_gate_with, lemma_gate_kept, lemma_grown_trans,
    lemma_grown_mono, lemma_room_step, lemma_room_left, lemma_extends_refl, lemma_fresh_kept, op_outputs, is_advice_pub,
};
use crate::gatelib::{LibGate, GateKind, PolyKind};
use crate::advice::{AdviceKind, distinct_vals};
use crate::gadgets::input::input;
use crate::gadgets::arith::{eq_gadget, has_arith};
use std::rc::Rc;
use crate::circuit::{satisfied, var_val, law_applied_gate_sound, lemma_constraint_arity};
use crate::witness::CSWtns;
use crate::run::{assigned_vals, constraint_holds};
use crate::gate::Gate;

verus! {

/// The product of all elements but the `i`-th.
pub open spec fn prod_skip(s: Seq<nat>, i: int) -> nat {
    fprod(s.remove(i))
}

/// Returns the product of `v` and, for every `i`, the product of all
/// elements but `v[i]`.
pub fn montgomery(v: &[Fe]) -> (r: (Fe, Vec<Fe>))
    ensures
        r.0.val() == fprod(vals(v@)),
        r.1@.len() == v@.len(),
        forall|i: int| 0 <= i < v@.len() ==> (#[trigger] r.1@[i]).val() == prod_skip(vals(v@), i),
{
    let ghost s = vals(v@);
    proof {
        lemma_vals_lt(v@);
    }
    if v.len() == 0 {
        return (Fe::one(), Vec::new());
    }
    let l = v.len();
    let mut left: Vec<Fe> = Vec::new();
    let mut right: Vec<Fe> = Vec::new();
    left.push(Fe::one());
    right.push(Fe::one());
    proof {
        assert(s.take(0) =~= Seq::<nat>::empty());
        assert(s.skip(l as int) =~= Seq::<nat>::empty());
    }
    let mut i: usize = 0;
    while i < l - 1
        invariant
            l == v@.len(),
            l >= 1,
            s == vals(v@),
            i <= l - 1,
            left@.len() == i + 1,
            forall|k: int| 0 <= k <= i ==> (#[trigger] left@[k]).val() == fprod(s.take(k)),
        decreases l - 1 - i,
    {
        let last = left[i];
        left.push(last.mul(&v[i]));
        proof {
            assert(s.take(i + 1).drop_last() =~= s.take(i as int));
        }
        i = i + 1;
    }
    let mut i: usize = 0;
    while i < l - 1
        invariant
            l == v@.len(),
            l >= 1,
            s == vals(v@),
            forall|k: int| 0 <= k < s.len() ==> #[trigger] s[k] < field_modulus(),
            i <= l - 1,
            right@.len() == i + 1,
            forall|k: int| 0 <= k <= i ==> (#[trigger] right@[k]).val() == fprod(s.skip(l - k)),
        decreases l - 1 - i,
    {
        let last = right[i];
        right.push(last.mul(&v[l - i - 1]));
        proof {
            // s.skip(l - i - 1) == [s[l - i - 1]] + s.skip(l - i)
            let t = s.skip(l - i - 1);
            assert(t =~= seq![s[l - i - 1]] + s.skip(l - i));
            lemma_fprod_concat(seq![s[l - i - 1]], s.skip(l - i));
            assert(seq![s[l - i - 1]].drop_last() =~= Seq::<nat>::empty());
            assert(seq![s[l - i - 1]].last() == s[l - i - 1]);
            assert(fprod(Seq::<nat>::empty()) == 1);
            assert(fprod(seq![s[l - i - 1]]) == fmul(1, s[l - i - 1]));
            vstd::arithmetic::div_mod::lemma_small_mod(s[l - i - 1], field_modulus());
            assert(1 * s[l - i - 1] == s[l - i - 1]);
            crate::field::lemma_fmul_comm(fprod(s.skip(l - i)), s[l - i - 1]);
        }
        i = i + 1;
    }
    let prod = left[l - 1].mul(&v[l - 1]);
    proof {
        assert(s.take(l as int).drop_last() =~= s.take(l - 1));
        assert(s.take(l as int) =~= s);
    }
    let mut ret: Vec<Fe> = Vec::new();
    let mut i: usize = 0;
    while i < l
        invariant
            l == v@.len(),
            l >= 1,
            s == vals(v@),
            forall|k: int| 0 <= k < s.len() ==> #[trigger] s[k] < field_modulus(),
            left@.len() == l,
            right@.len() == l,
            forall|k: int| 0 <= k < l ==> (#[trigger] left@[k]).val() == fprod(s.take(k)),
            forall|k: int| 0 <= k < l ==> (#[trigger] right@[k]).val() == fprod(s.skip(l - k)),
            i <= l,
            ret@.len() == i,
            forall|k: int| 0 <= k < i ==> (#[trigger] ret@[k]).val() == prod_skip(s, k),
        decreases l - i,
    {
        let x = left[i].mul(&right[l - i - 1]);
        ret.push(x);
        proof {
            assert(s.remove(i as int) =~= s.take(i as int) + s.skip(i + 1));
            assert(s.skip(l - (l - i - 1)) =~= s.skip(i + 1));
            lemma_fprod_concat(s.take(i as int), s.skip(i + 1));
        }
        i = i + 1;
    }
    (prod, ret)
}

/// The differences `vals[i] - c`.
pub open spec fn shifted(s: Seq<nat>, c: nat) -> Seq<nat> {
    Seq::new(s.len(), |i: int| fsub(s[i], c))
}

/// `res * prod(d) - sum_i prod_{j != i} d[j]` for the denominators `d`: zero
/// exactly when `res` is the sum of the inverses, if no denominator is zero.
pub open spec fn fractions_check(res: nat, d: Seq<nat>) -> nat {
    fsub(fmul(res, fprod(d)), fsum(Seq::new(d.len(), |i: int| prod_skip(d, i))))
}

/// `res * prod(d) - sum_i n[i] * prod_{j != i} d[j]`.
pub open spec fn fractions_with_nums_check(res: nat, d: Seq<nat>, n: Seq<nat>) -> nat {
    fsub(fmul(res, fprod(d)), fsum(Seq::new(d.len(), |i: int| fmul(prod_skip(d, i), n[i]))))
}

fn shift_all(v: &[Fe], c: &Fe) -> (r: Vec<Fe>)
    ensures
        vals(r@) == shifted(vals(v@), c.val()),
{
    let mut out: Vec<Fe> = Vec::new();
    let mut i: usize = 0;
    while i < v.len()
        invariant
            i <= v@.len(),
            out@.len() == i,
            forall|k: int| 0 <= k < i ==> (#[trigger] out@[k]).val() == fsub(v@[k].val(), c.val()),
        decreases v@.len() - i,
    {
        out.push(v[i].sub(c));
        i = i + 1;
    }
    proof {
        assert(vals(out@) =~= shifted(vals(v@), c.val()));
    }
    out
}

/// Parses `args` as `res, c, vals[0], ..., vals[k-1]` and returns
/// `res * prod(vals - c) - sum_i prod_{j != i}(vals[j] - c)`.
pub fn sum_of_fractions(args: &[Fe], k: usize) -> (r: Fe)
    requires
        args@.len() == k + 2,
    ensures
        r.val() == fractions_check(args@[0].val(), shifted(vals(args@).skip(2), args@[1].val())),
{
    let res = args[0];
    let c = args[1];
    let tail = vstd::slice::slice_subrange(args, 2, args.len());
    let dens = shift_all(tail, &c);
    let (prod, skips) = montgomery(dens.as_slice());
    let s = sum_arr(skips.as_slice());
    proof {
        assert(vals(tail@) =~= vals(args@).skip(2));
        let d = shifted(vals(args@).skip(2), c.val());
        assert(vals(skips@) =~= Seq::new(d.len(), |i: int| prod_skip(d, i)));
    }
    res.mul(&prod).sub(&s)
}

/// Parses `args` as `res, c, nums[0], ..., nums[k-1]` and returns
/// `res * prod(dens - c) - sum_i nums[i] * prod_{j != i}(dens[j] - c)`.
pub fn sum_of_fractions_with_nums(args: &[Fe], dens: &[Fe], k: usize) -> (r: Fe)
    requires
        args@.len() == k + 2,
        dens@.len() == k,
    ensures
        r.val() == fractions_with_nums_check(args@[0].val(), shifted(vals(dens@), args@[1].val()), vals(args@).skip(2)),
{
    let res = args[0];
    let c = args[1];
    let nums = vstd::slice::slice_subrange(args, 2, args.len());
    let d = shift_all(dens, &c);
    let (prod, skips) = montgomery(d.as_slice());
    let s = inner_prod(skips.as_slice(), nums);
    proof {
        let ds = shifted(vals(dens@), c.val());
        assert(vals(nums@) =~= vals(args@).skip(2));
        assert(pointwise(vals(skips@), vals(nums@)) =~= Seq::new(ds.len(), |i: int| fmul(prod_skip(ds, i), vals(args@).skip(2)[i])));
    }
    res.mul(&prod).sub(&s)
}

/// The inverse of each value, zero for zero.
pub open spec fn inverses(s: Seq<nat>) -> Seq<nat> {
    Seq::new(s.len(), |i: int| finv(s[i]))
}

/// Inverts the differences to `c`, zeros staying zero.
fn inverted_shifts(v: &[Fe], c: &Fe) -> (r: Vec<Fe>)
    ensures
        vals(r@) == inverses(shifted(vals(v@), c.val())),
{
    let mut inv = shift_all(v, c);
    let ghost before = inv@;
    Fe::batch_invert(&mut inv);
    proof {
        assert forall|i: int| 0 <= i < inv@.len() implies #[trigger] vals(inv@)[i] == inverses(shifted(vals(v@), c.val()))[i] by {
            before[i].lemma_val_lt();
            inv@[i].lemma_val_lt();
            if before[i].val() != 0 {
                lemma_finv_unique(before[i].val(), inv@[i].val());
            } else {
                assert(finv(0) == 0) by {
                    if exists|b: nat| b < field_modulus() && #[trigger] is_inverse(0, b) {
                        let b = choose|b: nat| b < field_modulus() && #[trigger] is_inverse(0, b);
                        assert(0 * b == 0);
                    }
                }
            }
        }
        assert(vals(inv@) =~= inverses(shifted(vals(v@), c.val())));
    }
    inv
}

/// Chunk `j` of length `rate`.
pub open spec fn rate_chunk(s: Seq<nat>, rate: nat, j: int) -> Seq<nat> {
    s.subrange(j * rate, (j + 1) * rate)
}

/// What the advice of the sum of inverses computes: `args` is `vals ++ [c]`
/// with `l` values, and chunk `j` of `rate` values gives
/// `sum 1 / (vals[t] - c)` over the chunk.
pub fn invsum_batches(args: &[Fe], l: usize, rate: usize) -> (r: Vec<Fe>)
    requires
        args@.len() == l + 1,
        rate > 0,
        l % rate == 0,
    ensures
        r@.len() == l / rate,
        forall|j: int| 0 <= j < r@.len() ==> (#[trigger] r@[j]).val() == fsum(rate_chunk(
            inverses(shifted(vals(args@).take(l as int), args@[l as int].val())),
            rate as nat,
            j,
        )),
{
    let vs = vstd::slice::slice_subrange(args, 0, l);
    let c = args[l];
    let inv = inverted_shifts(vs, &c);
    let ghost iv = vals(inv@);
    proof {
        assert(vals(vs@) =~= vals(args@).take(l as int));
        assert(vals(inv@).len() == inv@.len());
        assert(inv@.len() == l);
    }
    let mut ret: Vec<Fe> = Vec::new();
    let mut j: usize = 0;
    let n = l / rate;
    while j < n
        invariant
            n == l / rate,
            rate > 0,
            l % rate == 0,
            inv@.len() == l,
            iv == vals(inv@),
            j <= n,
            ret@.len() == j,
            forall|jj: int| 0 <= jj < j ==> (#[trigger] ret@[jj]).val() == fsum(rate_chunk(iv, rate as nat, jj)),
        decreases n - j,
    {
        proof {
            assert((j + 1) * rate <= n * rate) by (nonlinear_arith)
                requires
                    j < n,
            ;
            assert(n * rate == l) by (nonlinear_arith)
                requires
                    n == l / rate,
                    l % rate == 0,
                    rate > 0,
            ;
            assert(j * rate + rate == (j + 1) * rate) by (nonlinear_arith);
        }
        let chunk = vstd::slice::slice_subrange(inv.as_slice(), j * rate, (j + 1) * rate);
        let s = sum_arr(chunk);
        proof {
            assert(vals(chunk@) =~= rate_chunk(iv, rate as nat, j as int));
        }
        ret.push(s);
        j = j + 1;
    }
    ret
}

/// What the advice of the sum of fractions computes: `args` is `nums ++ [c]`
/// with `l` values, and chunk `j` of `rate` values gives
/// `sum nums[t] / (dens[t] - c)` over the chunk.
pub fn fracsum_batches(args: &[Fe], dens: &[Fe], l: usize, rate: usize) -> (r: Vec<Fe>)
    requires
        args@.len() == l + 1,
        dens@.len() == l,
        rate > 0,
        l % rate == 0,
    ensures
        r@.len() == l / rate,
        forall|j: int| 0 <= j < r@.len() ==> (#[trigger] r@[j]).val() == fsum(pointwise(
            rate_chunk(inverses(shifted(vals(dens@), args@[l as int].val())), rate as nat, j),
            rate_chunk(vals(args@).take(l as int), rate as nat, j),
        )),
{
    let nums = vstd::slice::slice_subrange(args, 0, l);
    let c = args[l];
    let inv = inverted_shifts(dens, &c);
    let ghost iv = vals(inv@);
    let ghost nv = vals(nums@);
    proof {
        assert(nv =~= vals(args@).take(l as int));
        assert(vals(inv@).len() == inv@.len());
        assert(inv@.len() == l);
    }
    let mut ret: Vec<Fe> = Vec::new();
    let mut j: usize = 0;
    let n = l / rate;
    while j < n
        invariant
            n == l / rate,
            rate > 0,
            l % rate == 0,
            inv@.len() == l,
            nums@.len() == l,
            iv == vals(inv@),
            nv == vals(nums@),
            j <= n,
            ret@.len() == j,
            forall|jj: int| 0 <= jj < j ==> (#[trigger] ret@[jj]).val() == fsum(pointwise(
                rate_chunk(iv, rate as nat, jj),
                rate_chunk(nv, rate as nat, jj),
            )),
        decreases n - j,
    {
        proof {
            assert((j + 1) * rate <= n * rate) by (nonlinear_arith)
                requires
                    j < n,
            ;
            assert(n * rate == l) by (nonlinear_arith)
                requires
                    n == l / rate,
                    l % rate == 0,
                    rate > 0,
            ;
            assert(j * rate + rate == (j + 1) * rate) by (nonlinear_arith);
        }
        let ic = vstd::slice::slice_subrange(inv.as_slice(), j * rate, (j + 1) * rate);
        let nc = vstd::slice::slice_subrange(nums, j * rate, (j + 1) * rate);
        let s = inner_prod(ic, nc);
        proof {
            assert(vals(ic@) =~= rate_chunk(iv, rate as nat, j as int));
            assert(vals(nc@) =~= rate_chunk(nv, rate as nat, j as int));
        }
        ret.push(s);
        j = j + 1;
    }
    ret
}

/// The number of entries of `s` with value `x`.
pub open spec fn count_val(s: Seq<Fe>, x: nat) -> nat
    decreases s.len(),
{
    if s.len() == 0 {
        0
    } else {
        count_val(s.drop_last(), x) + if s.last().val() == x { 1nat } else { 0nat }
    }
}

/// Some entry of the table has value `x`.
pub open spec fn in_table(table: Seq<Fe>, x: nat) -> bool {
    exists|j: int| 0 <= j < table.len() && #[trigger] table[j].val() == x
}

/// What the advice of the access counts computes: for every entry of the
/// table, how often the variables take its value. The table holds distinct
/// values and every variable's value is in it (a value out of the table is
/// an error).
pub fn access_counts(vars: &[Fe], table: &[Fe]) -> (r: Vec<Fe>)
    requires
        forall|i: int, j: int| 0 <= i < j < table@.len() ==> table@[i].val() != table@[j].val(),
        forall|i: int| 0 <= i < vars@.len() ==> in_table(table@, (#[trigger] vars@[i]).val()),
        vars@.len() <= u64::MAX,
    ensures
        r@.len() == table@.len(),
        forall|j: int| 0 <= j < table@.len() ==> (#[trigger] r@[j]).val() == count_val(vars@, table@[j].val()),
{
    let mut counts: Vec<u64> = Vec::new();
    let mut j: usize = 0;
    while j < table.len()
        invariant
            j <= table@.len(),
            counts@.len() == j,
            forall|t: int| 0 <= t < j ==> #[trigger] counts@[t] == 0,
        decreases table@.len() - j,
    {
        counts.push(0);
        j = j + 1;
    }
    let mut i: usize = 0;
    proof {
        assert(vars@.take(0) =~= Seq::<Fe>::empty());
    }
    while i < vars.len()
        invariant
            forall|a: int, b: int| 0 <= a < b < table@.len() ==> table@[a].val() != table@[b].val(),
            forall|a: int| 0 <= a < vars@.len() ==> in_table(table@, (#[trigger] vars@[a]).val()),
            vars@.len() <= u64::MAX,
            i <= vars@.len(),
            counts@.len() == table@.len(),
            forall|t: int| 0 <= t < table@.len() ==> #[trigger] counts@[t] == count_val(vars@.take(i as int), table@[t].val()),
            forall|t: int| 0 <= t < table@.len() ==> #[trigger] counts@[t] <= i,
        decreases vars@.len() - i,
    {
        let x = vars[i];
        let mut idx: usize = 0;
        while idx < table.len() && !(table[idx] == x)
            invariant
                idx <= table@.len(),
                forall|t: int| 0 <= t < idx ==> table@[t].val() != x.val(),
            decreases table@.len() - idx,
        {
            idx = idx + 1;
        }
        proof {
            assert(in_table(table@, vars@[i as int].val()));
            let b = choose|b: int| 0 <= b < table@.len() && #[trigger] table@[b].val() == vars@[i as int].val();
            assert(idx < table@.len());
            assert(table@[idx as int].val() == x.val());
            assert(vars@.take(i + 1).drop_last() =~= vars@.take(i as int));
            assert forall|t: int| 0 <= t < table@.len() && t != idx implies table@[t].val() != x.val() by {
                if t < idx {
                } else {
                    assert(table@[t].val() != table@[idx as int].val());
                }
            }
        }
        let cur = counts[idx];
        counts.set(idx, cur + 1);
        i = i + 1;
    }
    proof {
        assert(vars@.take(i as int) =~= vars@);
    }
    let mut r: Vec<Fe> = Vec::new();
    let mut j: usize = 0;
    while j < counts.len()
        invariant
            j <= counts@.len(),
            counts@.len() == table@.len(),
            forall|t: int| 0 <= t < table@.len() ==> #[trigger] counts@[t] == count_val(vars@, table@[t].val()),
            r@.len() == j,
            forall|t: int| 0 <= t < j ==> (#[trigger] r@[t]).val() == count_val(vars@, table@[t].val()),
        decreases counts@.len() - j,
    {
        r.push(Fe::from_u64(counts[j]));
        j = j + 1;
    }
    r
}

/// Chunk `i` of `rate` variables.
pub open spec fn vchunk(v: Seq<Variable>, rate: nat, i: int) -> Seq<Variable> {
    v.subrange(i * rate, (i + 1) * rate)
}

/// A gate of fractions has the denominators given.
pub open spec fn fracsum_of(g: GateKind, dens: Seq<Fe>) -> bool {
    match g {
        GateKind::FracsumWithNums { dens: d } => d@ == dens,
        _ => false,
    }
}

/// Constrains `res` to be `sum_i 1 / (vals[i] - challenge)`, in the form
/// `res * prod_i(vals[i] - c) - sum_i prod_{j != i}(vals[j] - c) == 0`.
pub fn invsum_flat_constrain(circuit: &mut Circuit, vals: &[Variable], res: Variable, challenge: Variable)
    requires
        old(circuit).wf(),
        vals@.len() > 0,
        vals@.len() + 2 <= usize::MAX,
        forall|a: int| 0 <= a < vals@.len() ==> old(circuit).has_var(#[trigger] vals@[a]),
        old(circuit).has_var(res),
        old(circuit).has_var(challenge),
        old(circuit).rhs_room(1),
    ensures
        final(circuit).wf(),
        final(circuit).extends(old(circuit)),
        final(circuit).grew(old(circuit), 1),
        final(circuit).ops_view() == old(circuit).ops_view(),
        final(circuit).cs.wspec() == old(circuit).cs.wspec(),
        has_gate(final(circuit).cs.all_constraints(), GateKind::SumOfFractions { k: vals@.len() as usize }, seq![res, challenge] + vals@),
{
    let mut args = vec![res, challenge];
    let mut i: usize = 0;
    while i < vals.len()
        invariant
            i <= vals@.len(),
            args@ == seq![res, challenge] + vals@.take(i as int),
        decreases vals@.len() - i,
    {
        args.push(vals[i]);
        i = i + 1;
        proof {
            assert(args@ =~= seq![res, challenge] + vals@.take(i as int));
        }
    }
    proof {
        assert(vals@.take(vals@.len() as int) =~= vals@);
        assert forall|a: int| 0 <= a < args@.len() implies old(circuit).has_var(#[trigger] args@[a]) by {
            if a >= 2 {
                assert(args@[a] == vals@[a - 2]);
            }
        }
    }
    circuit.constrain(args.as_slice(), LibGate::new(GateKind::SumOfFractions { k: vals.len() }));
}

/// Constrains `res` to be `sum_i nums[i] / (dens[i] - challenge)`.
pub fn fracsum_flat_constrain(circuit: &mut Circuit, nums: &[Variable], dens: &[Fe], res: Variable, challenge: Variable)
    requires
        old(circuit).wf(),
        dens@.len() == nums@.len(),
        nums@.len() + 2 <= usize::MAX,
        forall|a: int| 0 <= a < nums@.len() ==> old(circuit).has_var(#[trigger] nums@[a]),
        old(circuit).has_var(res),
        old(circuit).has_var(challenge),
        old(circuit).rhs_room(1),
    ensures
        final(circuit).wf(),
        final(circuit).extends(old(circuit)),
        final(circuit).grew(old(circuit), 1),
        final(circuit).ops_view() == old(circuit).ops_view(),
        final(circuit).cs.wspec() == old(circuit).cs.wspec(),
        has_gate_with(final(circuit).cs.all_constraints(), |g: GateKind| fracsum_of(g, dens@), seq![res, challenge] + nums@),
{
    let mut args = vec![res, challenge];
    let mut i: usize = 0;
    while i < nums.len()
        invariant
            i <= nums@.len(),
            args@ == seq![res, challenge] + nums@.take(i as int),
        decreases nums@.len() - i,
    {
        args.push(nums[i]);
        i = i + 1;
        proof {
            assert(args@ =~= seq![res, challenge] + nums@.take(i as int));
        }
    }
    proof {
        assert(nums@.take(nums@.len() as int) =~= nums@);
        assert forall|a: int| 0 <= a < args@.len() implies old(circuit).has_var(#[trigger] args@[a]) by {
            if a >= 2 {
                assert(args@[a] == nums@[a - 2]);
            }
        }
    }
    let d = Rc::new(vstd::slice::slice_to_vec(dens));
    let ghost kind = GateKind::FracsumWithNums { dens: d };
    circuit.constrain(args.as_slice(), LibGate::new(GateKind::FracsumWithNums { dens: d }));
    proof {
        lemma_gate_with(final(circuit).cs.all_constraints(), kind, |g: GateKind| fracsum_of(g, dens@), seq![res, challenge] + nums@);
    }
}

/// The variables followed by one more.
fn with_last(v: &[Variable], x: Variable) -> (r: Vec<Variable>)
    ensures
        r@ == v@ + seq![x],
{
    let mut out = copy_vars(v);
    out.push(x);
    proof {
        assert(out@ =~= v@ + seq![x]);
    }
    out
}

/// The sum of `1 / (vals[i] - challenge)`: an advice computes the sum of each
/// chunk of `rate` values, each chunk sum is constrained against its chunk,
/// and the chunk sums are added up. `rate` must divide the number of values.
pub fn invsum_gadget(circuit: &mut Circuit, vals: &[Variable], challenge: Variable, rate: usize, round: usize) -> (r: Variable)
    requires
        old(circuit).wf(),
        round < old(circuit).rounds(),
        rate > 0,
        vals@.len() % (rate as nat) == 0,
        vals@.len() + 2 <= usize::MAX,
        1 <= old(circuit).max_deg(),
        forall|a: int| 0 <= a < vals@.len() ==> old(circuit).has_var(#[trigger] vals@[a]) && vals@[a].round <= round,
        old(circuit).has_var(challenge),
        challenge.round <= round,
        old(circuit).room(2 * vals@.len() + 2),
    ensures
        final(circuit).grown(old(circuit), 2 * vals@.len() + 2),
        final(circuit).fresh(old(circuit), seq![r], round as nat, Visibility::Private),
        final(circuit).ops_view()[round as int].len() == old(circuit).ops_view()[round as int].len() + 2,
        ({
            let adv = final(circuit).ops_view()[round as int][old(circuit).ops_view()[round as int].len() as int];
            let b = op_outputs(adv);
            &&& is_advice(adv, vals@ + seq![challenge], b, AdviceKind::InvSum { l: vals@.len() as usize, rate })
            &&& b.len() == vals@.len() / (rate as nat)
            &&& forall|i: int| 0 <= i < b.len() ==> has_gate(
                final(circuit).cs.all_constraints(),
                GateKind::SumOfFractions { k: rate },
                seq![#[trigger] b[i], challenge] + vchunk(vals@, rate as nat, i),
            )
            &&& has_gate(final(circuit).cs.all_constraints(), GateKind::Applied { poly: PolyKind::Sum { n: b.len() as usize } }, b + seq![r])
        }),
{
    let l = vals.len();
    let nb = l / rate;
    let ghost j0 = old(circuit).ops_view()[round as int].len() as int;
    proof {
        assert(nb * rate == l) by (nonlinear_arith)
            requires
                nb == l / rate,
                l % rate == 0,
                rate > 0,
        ;
        assert(nb <= l) by (nonlinear_arith)
            requires
                nb * rate == l,
                rate > 0,
        ;
    }
    let args = with_last(vals, challenge);
    proof {
        assert forall|a: int| 0 <= a < args@.len() implies old(circuit).has_var(#[trigger] args@[a]) && args@[a].round <= round by {
            if a < l {
                assert(args@[a] == vals@[a]);
            }
        }
    }
    let batches = circuit.advice(round, AdviceKind::InvSum { l, rate }, args);
    let ghost mid = *circuit;
    proof {
        lemma_room_step(old(circuit), &mid, nb as nat, (2 * l + 2 - nb) as nat);
        lemma_extends_refl(&mid);
        assert(mid.ops_view()[round as int][j0] == mid.ops_view()[round as int].last());
    }
    let mut i: usize = 0;
    while i < nb
        invariant
            nb * rate == l,
            nb <= l,
            l == vals@.len(),
            l + 2 <= usize::MAX,
            rate > 0,
            i <= nb,
            batches@.len() == nb,
            mid.room((2 * l + 2 - nb) as nat),
            mid.fresh(old(circuit), batches@, round as nat, Visibility::Private),
            forall|a: int| 0 <= a < vals@.len() ==> old(circuit).has_var(#[trigger] vals@[a]),
            old(circuit).has_var(challenge),
            mid.extends(old(circuit)),
            circuit.grown(&mid, i as nat),
            circuit.ops_view() == mid.ops_view(),
            circuit.rounds() == mid.rounds(),
            forall|t: int| 0 <= t < i ==> has_gate(
                circuit.cs.all_constraints(),
                GateKind::SumOfFractions { k: rate },
                seq![#[trigger] batches@[t], challenge] + vchunk(vals@, rate as nat, t),
            ),
        decreases nb - i,
    {
        let ghost prev = *circuit;
        proof {
            lemma_room_left(&mid, &prev, i as nat, (2 * l + 2 - nb) as nat);
            lemma_fresh_kept(old(circuit), &mid, &prev, batches@, round as nat, Visibility::Private);
            crate::circuit::lemma_extends_trans(old(circuit), &mid, &prev);
            assert((i + 1) * rate <= nb * rate) by (nonlinear_arith)
                requires
                    i < nb,
            ;
            assert(i * rate + rate == (i + 1) * rate) by (nonlinear_arith);
        }
        let chunk = vstd::slice::slice_subrange(vals, i * rate, (i + 1) * rate);
        proof {
            assert forall|a: int| 0 <= a < chunk@.len() implies prev.has_var(#[trigger] chunk@[a]) by {
                assert(chunk@[a] == vals@[i * rate + a]);
            }
            assert(prev.has_var(batches@[i as int]));
        }
        invsum_flat_constrain(circuit, chunk, batches[i], challenge);
        proof {
            lemma_grown_trans(&mid, &prev, circuit, i as nat, 1);
            assert(chunk@ == vchunk(vals@, rate as nat, i as int));
            assert forall|t: int| 0 <= t < i + 1 implies has_gate(
                circuit.cs.all_constraints(),
                GateKind::SumOfFractions { k: rate },
                seq![#[trigger] batches@[t], challenge] + vchunk(vals@, rate as nat, t),
            ) by {
                if t < i {
                    lemma_gate_kept(&prev, circuit, GateKind::SumOfFractions { k: rate }, seq![batches@[t], challenge] + vchunk(vals@, rate as nat, t));
                }
            }
        }
        i = i + 1;
    }
    let ghost prev = *circuit;
    proof {
        lemma_room_left(&mid, &prev, nb as nat, (2 * l + 2 - nb) as nat);
        lemma_fresh_kept(old(circuit), &mid, &prev, batches@, round as nat, Visibility::Private);
        assert forall|a: int| 0 <= a < batches@.len() implies prev.has_var(#[trigger] batches@[a]) && batches@[a].round <= round by {}
    }
    let r = sum_gadget(circuit, batches.as_slice(), round);
    proof {
        lemma_grown_trans(&mid, &prev, circuit, nb as nat, 1);
        lemma_grown_trans(old(circuit), &mid, circuit, nb as nat, (nb + 1) as nat);
        lemma_grown_mono(old(circuit), circuit, (nb + nb + 1) as nat, (2 * l + 2) as nat);
        assert(circuit.ops_view()[round as int][j0] == mid.ops_view()[round as int][j0]);
        assert forall|t: int| 0 <= t < batches@.len() implies has_gate(
            circuit.cs.all_constraints(),
            GateKind::SumOfFractions { k: rate },
            seq![#[trigger] batches@[t], challenge] + vchunk(vals@, rate as nat, t),
        ) by {
            lemma_gate_kept(&prev, circuit, GateKind::SumOfFractions { k: rate }, seq![batches@[t], challenge] + vchunk(vals@, rate as nat, t));
        }
        assert(!old(circuit).has_var(r)) by {
            assert(seq![r][0] == r);
            assert(circuit.has_var(seq![r][0]));
            assert(!prev.has_var(r));
            crate::circuit::lemma_extends_trans(old(circuit), &mid, &prev);
        }
    }
    r
}

/// The advice sums fractions with the denominators given, `rate` at a time.
pub open spec fn fracsum_advice_of(k: AdviceKind, dens: Seq<Fe>, rate: usize) -> bool {
    match k {
        AdviceKind::FracSum { dens: d, rate: r } => d@ == dens && r == rate,
        _ => false,
    }
}

/// A recorded gate stays recorded.
proof fn lemma_gate_with_kept(before: &Circuit, after: &Circuit, p: spec_fn(GateKind) -> bool, inputs: Seq<Variable>)
    requires
        after.extends(before),
        has_gate_with(before.cs.all_constraints(), p, inputs),
    ensures
        has_gate_with(after.cs.all_constraints(), p, inputs),
{
    let b = before.cs.all_constraints();
    let a = after.cs.all_constraints();
    let k = choose|k: int| 0 <= k < b.len() && p((#[trigger] b[k]).gate.kind()) && b[k].inputs@ == inputs;
    assert(a.contains(b[k]));
    let i = choose|i: int| 0 <= i < a.len() && a[i] == b[k];
    assert(p(a[i].gate.kind()));
}

/// The sum of `nums[i] / (dens[i] - challenge)`: an advice computes the sum
/// of each chunk of `rate` fractions, each chunk sum is constrained against
/// its chunk, and the chunk sums are added up. `rate` must divide the number
/// of fractions.
pub fn fracsum_gadget(circuit: &mut Circuit, vals: &[Variable], dens: &[Fe], challenge: Variable, rate: usize, round: usize) -> (r: Variable)
    requires
        old(circuit).wf(),
        round < old(circuit).rounds(),
        rate > 0,
        vals@.len() % (rate as nat) == 0,
        dens@.len() == vals@.len(),
        vals@.len() + 2 <= usize::MAX,
        1 <= old(circuit).max_deg(),
        forall|a: int| 0 <= a < vals@.len() ==> old(circuit).has_var(#[trigger] vals@[a]) && vals@[a].round <= round,
        old(circuit).has_var(challenge),
        challenge.round <= round,
        old(circuit).room(2 * vals@.len() + 2),
    ensures
        final(circuit).grown(old(circuit), 2 * vals@.len() + 2),
        final(circuit).fresh(old(circuit), seq![r], round as nat, Visibility::Private),
        final(circuit).ops_view()[round as int].len() == old(circuit).ops_view()[round as int].len() + 2,
        ({
            let adv = final(circuit).ops_view()[round as int][old(circuit).ops_view()[round as int].len() as int];
            let b = op_outputs(adv);
            &&& adv matches Operation::Advice { input, output, kind } && input@ == vals@ + seq![challenge] && fracsum_advice_of(kind, dens@, rate)
            &&& b.len() == vals@.len() / (rate as nat)
            &&& forall|i: int| 0 <= i < b.len() ==> has_gate_with(
                final(circuit).cs.all_constraints(),
                |g: GateKind| fracsum_of(g, dens@.subrange(i * rate, (i + 1) * rate)),
                seq![#[trigger] b[i], challenge] + vchunk(vals@, rate as nat, i),
            )
            &&& has_gate(final(circuit).cs.all_constraints(), GateKind::Applied { poly: PolyKind::Sum { n: b.len() as usize } }, b + seq![r])
        }),
{
    let l = vals.len();
    let nb = l / rate;
    let ghost j0 = old(circuit).ops_view()[round as int].len() as int;
    proof {
        assert(nb * rate == l) by (nonlinear_arith)
            requires
                nb == l / rate,
                l % rate == 0,
                rate > 0,
        ;
        assert(nb <= l) by (nonlinear_arith)
            requires
                nb * rate == l,
                rate > 0,
        ;
    }
    let args = with_last(vals, challenge);
    proof {
        assert forall|a: int| 0 <= a < args@.len() implies old(circuit).has_var(#[trigger] args@[a]) && args@[a].round <= round by {
            if a < l {
                assert(args@[a] == vals@[a]);
            }
        }
    }
    let dv = Rc::new(vstd::slice::slice_to_vec(dens));
    let batches = circuit.advice(round, AdviceKind::FracSum { dens: dv, rate }, args);
    let ghost mid = *circuit;
    proof {
        lemma_room_step(old(circuit), &mid, nb as nat, (2 * l + 2 - nb) as nat);
        lemma_extends_refl(&mid);
        assert(mid.ops_view()[round as int][j0] == mid.ops_view()[round as int].last());
        assert(dv@ == dens@);
    }
    let mut i: usize = 0;
    while i < nb
        invariant
            nb * rate == l,
            nb <= l,
            l == vals@.len(),
            l + 2 <= usize::MAX,
            rate > 0,
            i <= nb,
            batches@.len() == nb,
            mid.room((2 * l + 2 - nb) as nat),
            mid.fresh(old(circuit), batches@, round as nat, Visibility::Private),
            forall|a: int| 0 <= a < vals@.len() ==> old(circuit).has_var(#[trigger] vals@[a]),
            old(circuit).has_var(challenge),
            mid.extends(old(circuit)),
            circuit.grown(&mid, i as nat),
            circuit.ops_view() == mid.ops_view(),
            circuit.rounds() == mid.rounds(),
            dens@.len() == l,
            forall|t: int| 0 <= t < i ==> has_gate_with(
                circuit.cs.all_constraints(),
                |g: GateKind| fracsum_of(g, dens@.subrange(t * rate, (t + 1) * rate)),
                seq![#[trigger] batches@[t], challenge] + vchunk(vals@, rate as nat, t),
            ),
        decreases nb - i,
    {
        let ghost prev = *circuit;
        proof {
            lemma_room_left(&mid, &prev, i as nat, (2 * l + 2 - nb) as nat);
            lemma_fresh_kept(old(circuit), &mid, &prev, batches@, round as nat, Visibility::Private);
            crate::circuit::lemma_extends_trans(old(circuit), &mid, &prev);
            assert((i + 1) * rate <= nb * rate) by (nonlinear_arith)
                requires
                    i < nb,
            ;
            assert(i * rate + rate == (i + 1) * rate) by (nonlinear_arith);
        }
        let chunk = vstd::slice::slice_subrange(vals, i * rate, (i + 1) * rate);
        proof {
            assert forall|a: int| 0 <= a < chunk@.len() implies prev.has_var(#[trigger] chunk@[a]) by {
                assert(chunk@[a] == vals@[i * rate + a]);
            }
            assert(prev.has_var(batches@[i as int]));
        }
        let dchunk = vstd::slice::slice_subrange(dens, i * rate, (i + 1) * rate);
        fracsum_flat_constrain(circuit, chunk, dchunk, batches[i], challenge);
        proof {
            lemma_grown_trans(&mid, &prev, circuit, i as nat, 1);
            assert(chunk@ == vchunk(vals@, rate as nat, i as int));
            assert forall|t: int| 0 <= t < i + 1 implies has_gate_with(
                circuit.cs.all_constraints(),
                |g: GateKind| fracsum_of(g, dens@.subrange(t * rate, (t + 1) * rate)),
                seq![#[trigger] batches@[t], challenge] + vchunk(vals@, rate as nat, t),
            ) by {
                if t < i {
                    lemma_gate_with_kept(&prev, circuit, |g: GateKind| fracsum_of(g, dens@.subrange(t * rate, (t + 1) * rate)), seq![batches@[t], challenge] + vchunk(vals@, rate as nat, t));
                }
            }
        }
        i = i + 1;
    }
    let ghost prev = *circuit;
    proof {
        lemma_room_left(&mid, &prev, nb as nat, (2 * l + 2 - nb) as nat);
        lemma_fresh_kept(old(circuit), &mid, &prev, batches@, round as nat, Visibility::Private);
        assert forall|a: int| 0 <= a < batches@.len() implies prev.has_var(#[trigger] batches@[a]) && batches@[a].round <= round by {}
    }
    let r = sum_gadget(circuit, batches.as_slice(), round);
    proof {
        lemma_grown_trans(&mid, &prev, circuit, nb as nat, 1);
        lemma_grown_trans(old(circuit), &mid, circuit, nb as nat, (nb + 1) as nat);
        lemma_grown_mono(old(circuit), circuit, (nb + nb + 1) as nat, (2 * l + 2) as nat);
        assert(circuit.ops_view()[round as int][j0] == mid.ops_view()[round as int][j0]);
        assert forall|t: int| 0 <= t < batches@.len() implies has_gate_with(
            circuit.cs.all_constraints(),
            |g: GateKind| fracsum_of(g, dens@.subrange(t * rate, (t + 1) * rate)),
            seq![#[trigger] batches@[t], challenge] + vchunk(vals@, rate as nat, t),
        ) by {
            lemma_gate_with_kept(&prev, circuit, |g: GateKind| fracsum_of(g, dens@.subrange(t * rate, (t + 1) * rate)), seq![batches@[t], challenge] + vchunk(vals@, rate as nat, t));
        }
        assert(!old(circuit).has_var(r)) by {
            assert(seq![r][0] == r);
            assert(circuit.has_var(seq![r][0]));
            assert(!prev.has_var(r));
            crate::circuit::lemma_extends_trans(old(circuit), &mid, &prev);
        }
    }
    r
}

/// The gates of a sum of `1 / (vals[i] - ch)` into `r`: the chunk sums `b`,
/// each checked against its chunk of `rate` values, then `r` their sum.
pub open spec fn invsum_parts(
    cs: Seq<crate::constraint_system::Constraint<LibGate>>,
    vals: Seq<Variable>,
    ch: Variable,
    rate: usize,
    r: Variable,
    b: Seq<Variable>,
) -> bool {
    &&& b.len() == vals.len() / (rate as nat)
    &&& forall|i: int| 0 <= i < b.len() ==> has_gate(
        cs,
        GateKind::SumOfFractions { k: rate },
        seq![#[trigger] b[i], ch] + vchunk(vals, rate as nat, i),
    )
    &&& has_gate(cs, GateKind::Applied { poly: PolyKind::Sum { n: b.len() as usize } }, b + seq![r])
}

/// The gates of a sum of `nums[i] / (dens[i] - ch)` into `r`: the chunk
/// sums `b`, each checked against its chunk of `rate` fractions, then `r`
/// their sum.
pub open spec fn fracsum_parts(
    cs: Seq<crate::constraint_system::Constraint<LibGate>>,
    nums: Seq<Variable>,
    dens: Seq<Fe>,
    ch: Variable,
    rate: usize,
    r: Variable,
    b: Seq<Variable>,
) -> bool {
    &&& b.len() == nums.len() / (rate as nat)
    &&& forall|i: int| 0 <= i < b.len() ==> has_gate_with(
        cs,
        |g: GateKind| fracsum_of(g, dens.subrange(i * rate, (i + 1) * rate)),
        seq![#[trigger] b[i], ch] + vchunk(nums, rate as nat, i),
    )
    &&& has_gate(cs, GateKind::Applied { poly: PolyKind::Sum { n: b.len() as usize } }, b + seq![r])
}

/// The gates of a lookup of `vars` into `table`: with the challenge `ch` and
/// the access counts `counts`, the sum `lhs` of the inverses of the looked
/// up values shifted by `ch`, the sum `rhs` of the counts over the table
/// entries shifted by `ch`, and the equality of the two.
pub open spec fn lookup_parts(
    cs: Seq<crate::constraint_system::Constraint<LibGate>>,
    vars: Seq<Variable>,
    table: Seq<Fe>,
    rate: usize,
    ch: Variable,
    counts: Seq<Variable>,
    lhs: Variable,
    rhs: Variable,
    b1: Seq<Variable>,
    b2: Seq<Variable>,
) -> bool {
    &&& invsum_parts(cs, vars, ch, rate, lhs, b1)
    &&& fracsum_parts(cs, counts, table, ch, rate, rhs, b2)
    &&& eq_of(cs, lhs, rhs)
}

/// A field sum is the residue of the integer sum.
proof fn lemma_fsum_int(s: Seq<nat>)
    ensures
        fsum(s) == crate::field::fm(crate::witness::sum_to(|i: int| s[i] as int, s.len())),
    decreases s.len(),
{
    let p = field_modulus() as int;
    if s.len() == 0 {
        crate::field::lemma_fm_canonical(0);
    } else {
        let dl = s.drop_last();
        lemma_fsum_int(dl);
        let m = (s.len() - 1) as nat;
        crate::witness::lemma_sum_ext(|i: int| dl[i] as int, |i: int| s[i] as int, m);
        let t = crate::witness::sum_to(|i: int| s[i] as int, m);
        vstd::arithmetic::div_mod::lemma_add_mod_noop(t, s.last() as int, p);
        vstd::arithmetic::div_mod::lemma_mod_twice(t, p);
        vstd::arithmetic::div_mod::lemma_add_mod_noop(crate::field::fm(t) as int, s.last() as int, p);
        crate::field::lemma_fm_bound(t);
        vstd::arithmetic::div_mod::lemma_small_mod(crate::field::fm(t), field_modulus());
    }
}

/// Integer sums distribute over a factor.
proof fn lemma_sum_scale(f: spec_fn(int) -> int, c: int, n: nat)
    ensures
        crate::witness::sum_to(|i: int| c * f(i), n) == c * crate::witness::sum_to(f, n),
    decreases n,
{
    if n > 0 {
        lemma_sum_scale(f, c, (n - 1) as nat);
        let t = crate::witness::sum_to(f, (n - 1) as nat);
        assert(c * t + c * f(n - 1) == c * (t + f(n - 1))) by (nonlinear_arith);
    }
}

/// Field products as residues of integer products.
proof fn lemma_fmul_int(a: int, b: int)
    ensures
        crate::field::fm(crate::field::fm(a) * b) == crate::field::fm(a * b),
        crate::field::fm(a * crate::field::fm(b)) == crate::field::fm(a * b),
{
    vstd::arithmetic::div_mod::lemma_mul_mod_noop_left(a, b, field_modulus() as int);
    vstd::arithmetic::div_mod::lemma_mul_mod_noop_right(a, b, field_modulus() as int);
}

/// Multiplying the product of the denominators by the inverse of one of
/// them leaves the product of the others.
proof fn lemma_prod_skip_inverse(d: Seq<nat>, e: nat, i: int)
    requires
        0 <= i < d.len(),
        forall|j: int| 0 <= j < d.len() ==> #[trigger] d[j] < field_modulus(),
        is_inverse(d[i], e),
    ensures
        fmul(fprod(d), e) == prod_skip(d, i),
{
    let x = d.take(i);
    let y = d.skip(i + 1);
    assert(d =~= (x + seq![d[i]]) + y);
    assert(d.remove(i) =~= x + y);
    assert forall|j: int| 0 <= j < y.len() implies #[trigger] y[j] < field_modulus() by {
        assert(y[j] == d[i + 1 + j]);
    }
    lemma_fprod_concat(x + seq![d[i]], y);
    lemma_fprod_concat(x, y);
    assert((x + seq![d[i]]).drop_last() =~= x);
    let a = fprod(x) as int;
    let b = fprod(y) as int;
    let di = d[i] as int;
    let ei = e as int;
    // fprod(d) = fm(fm(a * di) * b); times e; all as residues of a * b * (di * ei)
    lemma_fmul_int(a * di, b);
    lemma_fmul_int(a * di * b, ei);
    lemma_fmul_int(a * b, di * ei);
    assert(a * di * b * ei == (a * b) * (di * ei)) by (nonlinear_arith);
    assert(crate::field::fm(di * ei) == 1);
    assert((a * b) * 1 == a * b);
}

/// The product of the denominators times the product of their inverses is
/// one.
proof fn lemma_prod_inverses(d: Seq<nat>, e: Seq<nat>)
    requires
        d.len() == e.len(),
        forall|j: int| 0 <= j < d.len() ==> #[trigger] is_inverse(d[j], e[j]),
    ensures
        fmul(fprod(d), fprod(e)) == 1,
    decreases d.len(),
{
    if d.len() == 0 {
        vstd::arithmetic::div_mod::lemma_small_mod(1, field_modulus());
    } else {
        let (dd, ee) = (d.drop_last(), e.drop_last());
        assert forall|j: int| 0 <= j < dd.len() implies #[trigger] is_inverse(dd[j], ee[j]) by {
            assert(dd[j] == d[j] && ee[j] == e[j]);
        }
        lemma_prod_inverses(dd, ee);
        let (p, q) = (fprod(dd) as int, fprod(ee) as int);
        let (x, y) = (d.last() as int, e.last() as int);
        assert(is_inverse(d[d.len() - 1], e[e.len() - 1]));
        lemma_fmul_int(p * x, q * y);
        lemma_fmul_int(p * x, crate::field::fm(q * y) as int);
        vstd::arithmetic::div_mod::lemma_mul_mod_noop_general(p * x, q * y, field_modulus() as int);
        lemma_fmul_int(p * q, x * y);
        assert((p * x) * (q * y) == (p * q) * (x * y)) by (nonlinear_arith);
        assert(crate::field::fm(p * q) == 1 && crate::field::fm(x * y) == 1);
        vstd::arithmetic::div_mod::lemma_mul_mod_noop_general(p * q, x * y, field_modulus() as int);
        vstd::arithmetic::div_mod::lemma_small_mod(1, field_modulus());
    }
}

/// The fraction check with numerators is zero exactly when `res` is
/// `sum_i n[i] / d[i]`: for denominators `d` with inverses `e`,
/// `fractions_with_nums_check(res, d, n) == 0` iff `res` is the field sum of
/// `n[i] * e[i]`.
pub proof fn law_fractions_with_nums(res: nat, d: Seq<nat>, n: Seq<nat>, e: Seq<nat>)
    requires
        res < field_modulus(),
        d.len() == e.len(),
        n.len() == d.len(),
        forall|j: int| 0 <= j < d.len() ==> #[trigger] d[j] < field_modulus() && e[j] < field_modulus() && is_inverse(d[j], e[j]),
    ensures
        fractions_with_nums_check(res, d, n) == 0 <==> res == fsum(Seq::new(d.len(), |j: int| fmul(n[j], e[j]))),
{
    let pm = field_modulus() as int;
    let len = d.len();
    let pp = fprod(d) as int;
    let terms = Seq::new(len, |j: int| fmul(prod_skip(d, j), n[j]));
    let ne = Seq::new(len, |j: int| fmul(n[j], e[j]));
    let f1 = |j: int| (n[j] * e[j]) as int;
    let g = |j: int| pp * f1(j);
    let tc = |j: int| terms[j] as int;
    let big_n = crate::witness::sum_to(f1, len);
    // each term is p * n[j] * e[j] modulo the modulus
    assert forall|j: int| 0 <= j < len implies crate::field::fm(#[trigger] tc(j)) == crate::field::fm(g(j)) by {
        lemma_prod_skip_inverse(d, e[j], j);
        lemma_fmul_int(pp * e[j], n[j] as int);
        crate::field::lemma_fm_bound((prod_skip(d, j) * n[j]) as int);
        crate::field::lemma_fm_canonical(terms[j] as int);
        assert(pp * e[j] * n[j] == pp * (n[j] * e[j])) by (nonlinear_arith);
    }
    lemma_fsum_int(terms);
    assert((|i: int| terms[i] as int) =~= tc);
    crate::witness::lemma_sum_fm(tc, g, len);
    lemma_sum_scale(f1, pp, len);
    assert((|i: int| pp * f1(i)) =~= g);
    assert(fsum(terms) == crate::field::fm(pp * big_n));
    // fsum(ne) = fm(N)
    lemma_fsum_int(ne);
    let nc = |j: int| ne[j] as int;
    assert((|i: int| ne[i] as int) =~= nc);
    assert forall|j: int| 0 <= j < len implies crate::field::fm(#[trigger] nc(j)) == crate::field::fm(f1(j)) by {
        crate::field::lemma_fm_bound((n[j] * e[j]) as int);
        crate::field::lemma_fm_canonical(ne[j] as int);
        vstd::arithmetic::div_mod::lemma_mod_twice((n[j] * e[j]) as int, pm);
    }
    crate::witness::lemma_sum_fm(nc, f1, len);
    let s = fsum(ne);
    assert(s == crate::field::fm(big_n));
    // the check is fm(res * pp - pp * N) = fm(pp * (res - N))
    crate::field::lemma_fm_canonical(res as int);
    lemma_fprod_lt(d);
    crate::field::lemma_fm_canonical(pp);
    crate::field::lemma_fsub_fm(res * pp, pp * big_n);
    assert(fmul(res, fprod(d)) == crate::field::fm(res * pp));
    let chk = fractions_with_nums_check(res, d, n);
    assert(chk == crate::field::fm(res * pp - pp * big_n));
    assert(res * pp - pp * big_n == pp * (res - big_n)) by (nonlinear_arith);
    // the product of the inverses undoes pp
    lemma_prod_inverses(d, e);
    let qq = fprod(e) as int;
    lemma_fprod_lt(e);
    crate::field::lemma_fm_canonical(qq);
    assert(crate::field::fm(pp * qq) == 1);
    if chk == 0 {
        // fm(qq * pp * (res - N)) == 0, and fm(qq * pp) == 1
        lemma_fmul_int(pp * (res - big_n), qq);
        assert(pp * (res - big_n) * qq == (pp * qq) * (res - big_n)) by (nonlinear_arith);
        lemma_fmul_int(pp * qq, res - big_n);
        assert(crate::field::fm(1 * (res - big_n)) == crate::field::fm(res - big_n));
        assert(crate::field::fm(0 * qq) == 0);
        crate::field::lemma_fsub_fm(res as int, big_n);
        crate::field::lemma_fm_bound(big_n);
        crate::field::lemma_fsub_zero(res, s);
    }
    if res == s {
        crate::field::lemma_fsub_fm(res as int, big_n);
        crate::field::lemma_fm_bound(big_n);
        assert(crate::field::fsub(s, s) == 0);
        lemma_fmul_int(pp, res - big_n);
        assert(crate::field::fm(pp * 0) == 0);
    }
}

/// The fraction check is zero exactly when `res` is the sum of the inverses
/// of the denominators: for denominators `d` with inverses `e`,
/// `fractions_check(res, d) == 0` iff `res == fsum(e)`.
pub proof fn law_fractions_check(res: nat, d: Seq<nat>, e: Seq<nat>)
    requires
        res < field_modulus(),
        d.len() == e.len(),
        forall|j: int| 0 <= j < d.len() ==> #[trigger] d[j] < field_modulus() && e[j] < field_modulus() && is_inverse(d[j], e[j]),
    ensures
        fractions_check(res, d) == 0 <==> res == fsum(e),
{
    let len = d.len();
    let ones = Seq::new(len, |j: int| 1nat);
    law_fractions_with_nums(res, d, ones, e);
    let a = Seq::new(len, |i: int| prod_skip(d, i));
    let b = Seq::new(len, |i: int| fmul(prod_skip(d, i), ones[i]));
    assert forall|i: int| 0 <= i < len implies #[trigger] b[i] == a[i] by {
        lemma_fprod_lt(d.remove(i));
        vstd::arithmetic::div_mod::lemma_small_mod(prod_skip(d, i), field_modulus());
    }
    assert(a =~= b);
    let c = Seq::new(len, |j: int| fmul(ones[j], e[j]));
    assert forall|i: int| 0 <= i < len implies #[trigger] c[i] == e[i] by {
        assert(d[i] < field_modulus());
        assert(1 * e[i] == e[i]);
        vstd::arithmetic::div_mod::lemma_small_mod(e[i], field_modulus());
    }
    assert(c =~= e);
}

/// The value that a sum gate `b -> r` gives `r` where every constraint
/// holds: the field sum of the values of `b`.
proof fn lemma_sum_gate_value(c: Circuit, w: CSWtns, b: Seq<Variable>, r: Variable)
    requires
        c.wf(),
        satisfied(c, w),
        has_gate(c.cs.all_constraints(), GateKind::Applied { poly: PolyKind::Sum { n: b.len() as usize } }, b + seq![r]),
    ensures
        var_val(w, r) == fsum(vals(assigned_vals(w, b))),
{
    let cs = c.cs.all_constraints();
    let poly = PolyKind::Sum { n: b.len() as usize };
    let k = choose|k: int| 0 <= k < cs.len() && (#[trigger] cs[k]).gate.kind() == GateKind::Applied { poly } && cs[k].inputs@ == b + seq![r];
    lemma_constraint_arity(&c, k);
    law_applied_gate_sound(c, w, poly, b, seq![r]);
    let x = assigned_vals(w, b);
    assert(x.take(b.len() as int) =~= x);
    let v = fsum(vals(x));
    if vals(x).len() > 0 {
        crate::field::lemma_fm_bound((fsum(vals(x).drop_last()) + vals(x).last()) as int);
    }
    crate::field::lemma_fm_canonical(v as int);
    assert(var_val(w, r) == assigned_vals(w, seq![r])[0].val());
}

/// Soundness of a lookup: where every constraint of the circuit holds on a
/// witness, the sum of the inverse-sum chunks equals the sum of the
/// fraction chunks; each inverse-sum chunk `b1[i]` satisfies
/// `b1[i] * prod_j d_j == sum_j prod_{l != j} d_l` for the shifted looked-up
/// values `d_j = vars[j] - ch` of its chunk, and each fraction chunk `b2[i]`
/// the same with the access counts as numerators over the shifted table.
pub proof fn law_lookup_sound(
    c: Circuit,
    w: CSWtns,
    vars: Seq<Variable>,
    table: Seq<Fe>,
    rate: usize,
    ch: Variable,
    counts: Seq<Variable>,
    lhs: Variable,
    rhs: Variable,
    b1: Seq<Variable>,
    b2: Seq<Variable>,
)
    requires
        c.wf(),
        satisfied(c, w),
        lookup_parts(c.cs.all_constraints(), vars, table, rate, ch, counts, lhs, rhs, b1, b2),
    ensures
        var_val(w, lhs) == var_val(w, rhs),
        var_val(w, lhs) == fsum(vals(assigned_vals(w, b1))),
        var_val(w, rhs) == fsum(vals(assigned_vals(w, b2))),
        forall|i: int| 0 <= i < b1.len() ==> fractions_check(
            var_val(w, #[trigger] b1[i]),
            shifted(vals(assigned_vals(w, vchunk(vars, rate as nat, i))), var_val(w, ch)),
        ) == 0,
        forall|i: int| 0 <= i < b2.len() ==> fractions_with_nums_check(
            var_val(w, #[trigger] b2[i]),
            shifted(vals(table.subrange(i * rate, (i + 1) * rate)), var_val(w, ch)),
            vals(assigned_vals(w, vchunk(counts, rate as nat, i))),
        ) == 0,
{
    let cs = c.cs.all_constraints();
    lemma_sum_gate_value(c, w, b1, lhs);
    lemma_sum_gate_value(c, w, b2, rhs);
    // the equality gate
    let k = choose|k: int| 0 <= k < cs.len() && crate::gadgets::arith::arith_of(#[trigger] cs[k].gate.kind(), (0, 1, 0, 0))
        && cs[k].inputs@ == seq![lhs, lhs, rhs];
    assert(constraint_holds(cs[k], w));
    let x = assigned_vals(w, seq![lhs, lhs, rhs]);
    assert(cs[k].gate.spec_exec(x)[0] == 0);
    let (a, cc) = (x[0].val(), x[2].val());
    x[0].lemma_val_lt();
    x[2].lemma_val_lt();
    assert(fmul(0, a) == 0 && fmul(0, x[1].val()) == 0);
    assert(fmul(fmul(0, a), x[1].val()) == 0);
    vstd::arithmetic::div_mod::lemma_small_mod(a, field_modulus());
    assert(fmul(1, a) == a);
    assert(fadd(0, a) == a);
    assert(fadd(a, 0) == a);
    crate::field::lemma_fsub_zero(a, cc);
    assert(var_val(w, lhs) == a && var_val(w, rhs) == cc);
    // the chunk gates
    assert forall|i: int| 0 <= i < b1.len() implies fractions_check(
        var_val(w, #[trigger] b1[i]),
        shifted(vals(assigned_vals(w, vchunk(vars, rate as nat, i))), var_val(w, ch)),
    ) == 0 by {
        let ins = seq![b1[i], ch] + vchunk(vars, rate as nat, i);
        let kk = choose|kk: int| 0 <= kk < cs.len() && (#[trigger] cs[kk]).gate.kind() == GateKind::SumOfFractions { k: rate } && cs[kk].inputs@ == ins;
        assert(constraint_holds(cs[kk], w));
        let y = assigned_vals(w, ins);
        assert(cs[kk].gate.spec_exec(y)[0] == 0);
        assert(vals(y).skip(2) =~= vals(assigned_vals(w, vchunk(vars, rate as nat, i))));
        assert(y[0].val() == var_val(w, b1[i]) && y[1].val() == var_val(w, ch));
    }
    assert forall|i: int| 0 <= i < b2.len() implies fractions_with_nums_check(
        var_val(w, #[trigger] b2[i]),
        shifted(vals(table.subrange(i * rate, (i + 1) * rate)), var_val(w, ch)),
        vals(assigned_vals(w, vchunk(counts, rate as nat, i))),
    ) == 0 by {
        let ins = seq![b2[i], ch] + vchunk(counts, rate as nat, i);
        let p = |g: GateKind| fracsum_of(g, table.subrange(i * rate, (i + 1) * rate));
        assert(has_gate_with(cs, p, ins));
        let kk = choose|kk: int| 0 <= kk < cs.len() && p((#[trigger] cs[kk]).gate.kind()) && cs[kk].inputs@ == ins;
        assert(constraint_holds(cs[kk], w));
        let y = assigned_vals(w, ins);
        assert(cs[kk].gate.spec_exec(y)[0] == 0);
        assert(vals(y).skip(2) =~= vals(assigned_vals(w, vchunk(counts, rate as nat, i))));
        assert(y[0].val() == var_val(w, b2[i]) && y[1].val() == var_val(w, ch));
    }
}

proof fn lemma_invsum_parts_kept(
    before: &Circuit,
    after: &Circuit,
    vals: Seq<Variable>,
    ch: Variable,
    rate: usize,
    r: Variable,
    b: Seq<Variable>,
)
    requires
        after.extends(before),
        invsum_parts(before.cs.all_constraints(), vals, ch, rate, r, b),
    ensures
        invsum_parts(after.cs.all_constraints(), vals, ch, rate, r, b),
{
    assert forall|i: int| 0 <= i < b.len() implies has_gate(
        after.cs.all_constraints(),
        GateKind::SumOfFractions { k: rate },
        seq![#[trigger] b[i], ch] + vchunk(vals, rate as nat, i),
    ) by {
        lemma_gate_kept(before, after, GateKind::SumOfFractions { k: rate }, seq![b[i], ch] + vchunk(vals, rate as nat, i));
    }
    lemma_gate_kept(before, after, GateKind::Applied { poly: PolyKind::Sum { n: b.len() as usize } }, b + seq![r]);
}

proof fn lemma_fracsum_parts_kept(
    before: &Circuit,
    after: &Circuit,
    nums: Seq<Variable>,
    dens: Seq<Fe>,
    ch: Variable,
    rate: usize,
    r: Variable,
    b: Seq<Variable>,
)
    requires
        after.extends(before),
        fracsum_parts(before.cs.all_constraints(), nums, dens, ch, rate, r, b),
    ensures
        fracsum_parts(after.cs.all_constraints(), nums, dens, ch, rate, r, b),
{
    assert forall|i: int| 0 <= i < b.len() implies has_gate_with(
        after.cs.all_constraints(),
        |g: GateKind| fracsum_of(g, dens.subrange(i * rate, (i + 1) * rate)),
        seq![#[trigger] b[i], ch] + vchunk(nums, rate as nat, i),
    ) by {
        lemma_gate_with_kept(
            before,
            after,
            |g: GateKind| fracsum_of(g, dens.subrange(i * rate, (i + 1) * rate)),
            seq![b[i], ch] + vchunk(nums, rate as nat, i),
        );
    }
    lemma_gate_kept(before, after, GateKind::Applied { poly: PolyKind::Sum { n: b.len() as usize } }, b + seq![r]);
}

/// A lookup argument: variables are collected, then the lookup is sealed and
/// its constraints are added.
pub trait Lookup: Sized {
    /// The variables collected so far.
    spec fn looked_up(&self) -> Seq<Variable>;

    /// The lookup can be sealed in `circuit` with these rounds and rate.
    spec fn ready(&self, circuit: &Circuit, table_round: usize, access_round: usize, challenge_round: usize, rate: usize) -> bool;

    /// Adds the variable to the list of variables to look up.
    fn check(&mut self, circuit: &mut Circuit, var: Variable)
        ensures
            final(self).looked_up() == old(self).looked_up().push(var),
            *final(circuit) == *old(circuit),
    ;

    /// Seals the lookup and applies its constraints; the challenge round
    /// must come after the rounds of the variables looked up.
    fn finalize(self, circuit: &mut Circuit, table_round: usize, access_round: usize, challenge_round: usize, rate: usize)
        requires
            self.ready(old(circuit), table_round, access_round, challenge_round, rate),
        ensures
            final(circuit).wf(),
            final(circuit).extends(old(circuit)),
    ;
}

/// A lookup into a fixed table, with a challenge taken from an external
/// value.
pub struct StaticLookup {
    pub vars: Vec<Variable>,
    pub round: usize,
    pub challenge: ExternalValue,
    pub table: Vec<Fe>,
}

impl StaticLookup {
    /// An empty lookup into `table`.
    pub fn new(challenge_src: ExternalValue, table: &[Fe]) -> (r: Self)
        ensures
            r.vars@ == Seq::<Variable>::empty(),
            r.round == 0,
            r.challenge == challenge_src,
            r.table@ == table@,
    {
        Self { vars: Vec::new(), round: 0, challenge: challenge_src, table: vstd::slice::slice_to_vec(table) }
    }
}

/// The budget of sealing a lookup of `n` variables into a table of `m`.
pub open spec fn lookup_budget(n: nat, m: nat) -> nat {
    2 * n + 3 * m + 6
}

impl Lookup for StaticLookup {
    open spec fn looked_up(&self) -> Seq<Variable> {
        self.vars@
    }

    open spec fn ready(&self, circuit: &Circuit, table_round: usize, access_round: usize, challenge_round: usize, rate: usize) -> bool {
        &&& circuit.wf()
        &&& table_round <= access_round
        &&& access_round >= self.round
        &&& challenge_round > access_round
        &&& challenge_round < circuit.rounds()
        &&& forall|a: int| 0 <= a < self.vars@.len() ==> circuit.has_var(#[trigger] self.vars@[a]) && self.vars@[a].round <= self.round
        &&& self.challenge.addr < circuit.cs.wspec().num_exts
        &&& distinct_vals(self.table@)
        &&& rate > 0
        &&& self.vars@.len() % (rate as nat) == 0
        &&& self.table@.len() % (rate as nat) == 0
        &&& self.vars@.len() + 2 <= usize::MAX
        &&& self.table@.len() + 2 <= usize::MAX
        &&& 1 <= circuit.max_deg()
        &&& circuit.room(lookup_budget(self.vars@.len(), self.table@.len()))
    }

    fn check(&mut self, circuit: &mut Circuit, var: Variable)
        ensures
            final(self).round == if old(self).round < var.round { var.round } else { old(self).round },
            final(self).challenge == old(self).challenge,
            final(self).table@ == old(self).table@,
    {
        if self.round < var.round {
            self.round = var.round;
        }
        self.vars.push(var);
    }

    fn finalize(self, circuit: &mut Circuit, table_round: usize, access_round: usize, challenge_round: usize, rate: usize)
        ensures
            final(circuit).grown(old(circuit), lookup_budget(self.vars@.len(), self.table@.len())),
            final(circuit).ops_view()[access_round as int][old(circuit).ops_view()[access_round as int].len() as int] matches Operation::Advice {
                input,
                kind: AdviceKind::AccessCounts { table },
                ..
            } && input@ == self.vars@ && table@ == self.table@,
            exists|lhs: Variable, rhs: Variable| #[trigger] eq_of(final(circuit).cs.all_constraints(), lhs, rhs),
            exists|ch: Variable, counts: Seq<Variable>, lhs: Variable, rhs: Variable, b1: Seq<Variable>, b2: Seq<Variable>|
                {
                    &&& #[trigger] lookup_parts(final(circuit).cs.all_constraints(), self.vars@, self.table@, rate, ch, counts, lhs, rhs, b1, b2)
                    &&& counts == op_outputs(final(circuit).ops_view()[access_round as int][old(circuit).ops_view()[access_round as int].len() as int])
                    &&& is_advice_pub(
                        final(circuit).ops_view()[challenge_round as int][old(circuit).ops_view()[challenge_round as int].len() as int],
                        seq![self.challenge],
                        seq![ch],
                        AdviceKind::Copy,
                    )
                },
    {
        let StaticLookup { vars, round, challenge, table } = self;
        let n = vars.len();
        let m = table.len();
        let ghost total = lookup_budget(n as nat, m as nat);
        let ghost j0 = old(circuit).ops_view()[access_round as int].len() as int;
        let tv = Rc::new(vstd::slice::slice_to_vec(table.as_slice()));
        proof {
            lemma_extends_refl(old(circuit));
            assert forall|a: int| 0 <= a < vars@.len() implies old(circuit).has_var(#[trigger] vars@[a]) && vars@[a].round <= access_round by {}
        }
        let counts = circuit.advice(access_round, AdviceKind::AccessCounts { table: tv }, copy_vars(vars.as_slice()));
        let ghost c1 = *circuit;
        proof {
            lemma_room_step(old(circuit), &c1, m as nat, (total - m) as nat);
            assert(c1.ops_view()[access_round as int][j0] == c1.ops_view()[access_round as int].last());
        }
        let ch = input(circuit, challenge, challenge_round);
        let ghost c2 = *circuit;
        proof {
            lemma_room_step(&c1, &c2, 1, (total - m - 1) as nat);
            crate::circuit::lemma_extends_trans(old(circuit), &c1, &c2);
            assert(seq![ch][0] == ch);
            assert(c2.has_var(seq![ch][0]));
            assert forall|a: int| 0 <= a < vars@.len() implies c2.has_var(#[trigger] vars@[a]) && vars@[a].round <= challenge_round by {
                assert(old(circuit).has_var(vars@[a]));
            }
            lemma_grown_mono(&c2, &c2, 0, 0);
        }
        let ghost k0 = old(circuit).ops_view()[challenge_round as int].len() as int;
        proof {
            crate::circuit::lemma_ops_len(old(circuit));
            assert(c1.ops_view()[challenge_round as int] == old(circuit).ops_view()[challenge_round as int]);
            assert(c2.ops_view()[challenge_round as int][k0] == c2.ops_view()[challenge_round as int].last());
        }
        let lhs = invsum_gadget(circuit, vars.as_slice(), ch, rate, challenge_round);
        let ghost c3 = *circuit;
        let ghost b1 = op_outputs(c3.ops_view()[challenge_round as int][c2.ops_view()[challenge_round as int].len() as int]);
        proof {
            assert(invsum_parts(c3.cs.all_constraints(), vars@, ch, rate, lhs, b1));
        }
        proof {
            lemma_room_step(&c2, &c3, 2 * n as nat + 2, (total - m - 1 - 2 * n - 2) as nat);
            crate::circuit::lemma_extends_trans(&c1, &c2, &c3);
            lemma_fresh_kept(old(circuit), &c1, &c3, counts@, access_round as nat, Visibility::Private);
            assert forall|a: int| 0 <= a < counts@.len() implies c3.has_var(#[trigger] counts@[a]) && counts@[a].round <= challenge_round by {}
            assert(seq![lhs][0] == lhs);
            assert(c3.has_var(seq![lhs][0]));
            assert(c3.has_var(ch));
        }
        let rhs = fracsum_gadget(circuit, counts.as_slice(), table.as_slice(), ch, rate, challenge_round);
        let ghost c4 = *circuit;
        let ghost b2 = op_outputs(c4.ops_view()[challenge_round as int][c3.ops_view()[challenge_round as int].len() as int]);
        proof {
            assert(fracsum_parts(c4.cs.all_constraints(), counts@, table@, ch, rate, rhs, b2));
        }
        proof {
            lemma_room_step(&c3, &c4, 2 * m as nat + 2, (total - m - 1 - 2 * n - 2 - 2 * m - 2) as nat);
            assert(seq![rhs][0] == rhs);
            assert(c4.has_var(seq![rhs][0]));
            assert(c4.has_var(lhs));
        }
        eq_gadget(circuit, lhs, rhs);
        proof {
            lemma_grown_trans(old(circuit), &c1, &c2, m as nat, 1);
            lemma_grown_trans(old(circuit), &c2, &c3, (m + 1) as nat, 2 * n as nat + 2);
            lemma_grown_trans(old(circuit), &c3, &c4, (m + 1 + 2 * n + 2) as nat, 2 * m as nat + 2);
            lemma_grown_trans(old(circuit), &c4, circuit, (m + 1 + 2 * n + 2 + 2 * m + 2) as nat, 1);
            crate::circuit::lemma_extends_trans(&c3, &c4, circuit);
            crate::circuit::lemma_extends_trans(&c1, &c3, circuit);
            crate::circuit::lemma_ops_len(&c1);
            assert(circuit.ops_view()[access_round as int][j0] == c1.ops_view()[access_round as int][j0]);
            assert(eq_of(circuit.cs.all_constraints(), lhs, rhs));
            crate::circuit::lemma_extends_trans(&c2, &c3, circuit);
            lemma_invsum_parts_kept(&c3, circuit, vars@, ch, rate, lhs, b1);
            lemma_fracsum_parts_kept(&c4, circuit, counts@, table@, ch, rate, rhs, b2);
            assert(lookup_parts(circuit.cs.all_constraints(), vars@, table@, rate, ch, counts@, lhs, rhs, b1, b2));
            assert(c1.ops_view()[access_round as int][j0] == c1.ops_view()[access_round as int].last());
            assert(counts@ == op_outputs(circuit.ops_view()[access_round as int][j0]));
            assert(circuit.ops_view()[challenge_round as int][k0] == c2.ops_view()[challenge_round as int][k0]);
        }
    }
}

/// The constraints hold the check `lhs == rhs`.
pub open spec fn eq_of(cs: Seq<crate::constraint_system::Constraint<LibGate>>, lhs: Variable, rhs: Variable) -> bool {
    has_arith(cs, (0, 1, 0, 0), seq![lhs, lhs, rhs])
}

} // verus!
