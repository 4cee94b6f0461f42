//! The ProtoGalaxy prover: the constraints are evaluated along the line
//! between two witnesses, and the evaluations are combined into the cross
//! terms, of which the quotient by `t (t - 1)` is interpolated.

use vstd::prelude::*;
use crate::field::{Fe, fadd, fsub, fmul, fm, vals, is_inverse, field_modulus, lemma_fmul_cancel, lemma_fm_canonical};
use crate::combine::{line_vals, buffers_fit, split_polys, combine_polys, pt_pairs, combine_cross_terms};
use crate::gate::Gate;
use crate::constraint_system::{Constraint, ProtoGalaxyConstraintSystem, Variable, Visibility};
use crate::cross_terms::{EvalLayout, layout_size, layout_polys, layout_sorted, layouts_from};
use crate::witness::{ProtostarWtns, lhs_readable};

verus! {

/// The prover; it holds no state.
pub struct ProtoGalaxyProver {}

/// The largest degree of a constraint of `cs` that reads `v`; 0 if none does.
pub open spec fn var_degree<G: Gate>(cs: Seq<Constraint<G>>, v: Variable) -> nat
    decreases cs.len(),
{
    if cs.len() == 0 {
        0
    } else {
        let prev = var_degree(cs.drop_last(), v);
        let d = if cs.last().inputs@.contains(v) { cs.last().gate.spec_d() } else { 0 };
        if prev >= d { prev } else { d }
    }
}

/// `t` has the shape of `shape` and holds, for each variable of visibility
/// `vis`, its degree in `cs`.
pub open spec fn degree_table<G: Gate>(t: Seq<Vec<usize>>, shape: Seq<Vec<Fe>>, cs: Seq<Constraint<G>>, vis: Visibility) -> bool {
    &&& t.len() == shape.len()
    &&& forall|r: int| 0 <= r < t.len() ==> (#[trigger] t[r])@.len() == shape[r]@.len()
    &&& forall|r: int, i: int|
        0 <= r < t.len() && 0 <= i < t[r]@.len() ==> #[trigger] t[r]@[i] == var_degree(
            cs,
            Variable { visibility: vis, round: r as usize, index: i as usize },
        )
}

/// The runs of equal degree of `cs`, each with the number of values its
/// gates output.
pub open spec fn layout_of<G: Gate>(cs: Seq<Constraint<G>>) -> Seq<EvalLayout>
    decreases cs.len(),
{
    if cs.len() == 0 {
        Seq::empty()
    } else {
        let prev = layout_of(cs.drop_last());
        let c = cs.last();
        if prev.len() == 0 || prev.last().deg != c.gate.spec_d() {
            prev.push(EvalLayout { deg: c.gate.spec_d() as usize, amount: c.gate.spec_o() as usize })
        } else {
            prev.update(
                prev.len() - 1,
                EvalLayout { deg: prev.last().deg, amount: (prev.last().amount + c.gate.spec_o()) as usize },
            )
        }
    }
}

/// Sum of the degrees and of the output sizes of the gates of `cs`.
pub open spec fn gates_total<G: Gate>(cs: Seq<Constraint<G>>) -> nat
    decreases cs.len(),
{
    if cs.len() == 0 {
        0
    } else {
        gates_total(cs.drop_last()) + cs.last().gate.spec_d() + cs.last().gate.spec_o()
    }
}

/// Sets entry `(r, i)` of a table.
fn set_entry(t: &mut Vec<Vec<usize>>, r: usize, i: usize, x: usize)
    requires
        r < old(t)@.len(),
        i < old(t)@[r as int]@.len(),
    ensures
        final(t)@.len() == old(t)@.len(),
        forall|k: int| 0 <= k < old(t)@.len() && k != r ==> #[trigger] final(t)@[k] == old(t)@[k],
        final(t)@[r as int]@ == old(t)@[r as int]@.update(i as int, x),
{
    let mut row = t.remove(r);
    row.set(i, x);
    t.insert(r, row);
}

/// A table of zeros of the shape of `shape`.
fn zero_table(shape: &Vec<Vec<Fe>>) -> (t: Vec<Vec<usize>>)
    ensures
        t@.len() == shape@.len(),
        forall|r: int| 0 <= r < t@.len() ==> (#[trigger] t@[r])@.len() == shape@[r]@.len(),
        forall|r: int, i: int| 0 <= r < t@.len() && 0 <= i < t@[r]@.len() ==> #[trigger] t@[r]@[i] == 0,
{
    let mut t: Vec<Vec<usize>> = Vec::new();
    let mut r: usize = 0;
    while r < shape.len()
        invariant
            r <= shape@.len(),
            t@.len() == r,
            forall|k: int| 0 <= k < r ==> (#[trigger] t@[k])@.len() == shape@[k]@.len(),
            forall|k: int, i: int| 0 <= k < r && 0 <= i < t@[k]@.len() ==> #[trigger] t@[k]@[i] == 0,
        decreases shape@.len() - r,
    {
        let mut row: Vec<usize> = Vec::new();
        let mut i: usize = 0;
        while i < shape[r].len()
            invariant
                r < shape@.len(),
                i <= shape@[r as int]@.len(),
                row@.len() == i,
                forall|j: int| 0 <= j < i ==> #[trigger] row@[j] == 0,
            decreases shape@[r as int]@.len() - i,
        {
            row.push(0);
            i = i + 1;
        }
        t.push(row);
        r = r + 1;
    }
    t
}

/// The degree table of one visibility.
fn degrees_of<G: Gate>(cs: &ProtoGalaxyConstraintSystem<G>, shape: &Vec<Vec<Fe>>, vis: Visibility) -> (t: Vec<Vec<usize>>)
    requires
        forall|k: int, j: int|
            0 <= k < cs.nonlinear().len() && 0 <= j < cs.nonlinear()[k].inputs@.len()
                && (#[trigger] cs.nonlinear()[k].inputs@[j]).visibility == vis ==> {
                let v = cs.nonlinear()[k].inputs@[j];
                v.round < shape@.len() && v.index < shape@[v.round as int]@.len()
            },
        forall|k: int| 0 <= k < cs.nonlinear().len() ==> (#[trigger] cs.nonlinear()[k]).gate.spec_d() <= usize::MAX,
    ensures
        degree_table(t@, shape@, cs.nonlinear(), vis),
{
    let constrs = cs.iter_non_linear_constraints();
    let ghost nl = cs.nonlinear();
    let mut t = zero_table(shape);
    let mut k: usize = 0;
    proof {
        assert(nl.take(0) =~= Seq::<Constraint<G>>::empty());
    }
    while k < constrs.len()
        invariant
            constrs@.len() == nl.len(),
            forall|j: int| 0 <= j < constrs@.len() ==> *(#[trigger] constrs@[j]) == nl[j],
            forall|kk: int, j: int|
                0 <= kk < nl.len() && 0 <= j < nl[kk].inputs@.len() && (#[trigger] nl[kk].inputs@[j]).visibility == vis ==> {
                    let v = nl[kk].inputs@[j];
                    v.round < shape@.len() && v.index < shape@[v.round as int]@.len()
                },
            forall|kk: int| 0 <= kk < nl.len() ==> (#[trigger] nl[kk]).gate.spec_d() <= usize::MAX,
            k <= nl.len(),
            degree_table(t@, shape@, nl.take(k as int), vis),
        decreases nl.len() - k,
    {
        let c = constrs[k];
        let d = c.gate.d();
        let ghost prev = nl.take(k as int);
        let mut j: usize = 0;
        while j < c.inputs.len()
            invariant
                *c == nl[k as int],
                0 <= k < nl.len(),
                d == c.gate.spec_d(),
                forall|jj: int| 0 <= jj < c.inputs@.len() && (#[trigger] c.inputs@[jj]).visibility == vis ==> {
                    let v = c.inputs@[jj];
                    v.round < shape@.len() && v.index < shape@[v.round as int]@.len()
                },
                j <= c.inputs@.len(),
                t@.len() == shape@.len(),
                forall|r: int| 0 <= r < t@.len() ==> (#[trigger] t@[r])@.len() == shape@[r]@.len(),
                forall|r: int, i: int|
                    0 <= r < t@.len() && 0 <= i < t@[r]@.len() ==> #[trigger] t@[r]@[i] == ({
                        let v = Variable { visibility: vis, round: r as usize, index: i as usize };
                        let p = var_degree(prev, v);
                        let dd = if c.inputs@.take(j as int).contains(v) { d as nat } else { 0 };
                        if p >= dd { p } else { dd }
                    }),
            decreases c.inputs@.len() - j,
        {
            let v = c.inputs[j];
            proof {
                assert(c.inputs@.take(j + 1) =~= c.inputs@.take(j as int).push(v));
            }
            if v.visibility == vis {
                let ghost tb = t@;
                let tlen = t.len();
                let rlen = t[v.round].len();
                let cur = t[v.round][v.index];
                if cur < d {
                    set_entry(&mut t, v.round, v.index, d);
                }
                proof {
                    assert forall|r: int, i: int| 0 <= r < t@.len() && 0 <= i < t@[r]@.len() implies #[trigger] t@[r]@[i] == if r == v.round && i == v.index {
                        if tb[r]@[i] >= d { tb[r]@[i] } else { d }
                    } else {
                        tb[r]@[i]
                    } by {
                        if r == v.round {
                        }
                    }
                    assert forall|r: int, i: int| 0 <= r < t@.len() && 0 <= i < t@[r]@.len() implies #[trigger] t@[r]@[i] == ({
                        let w = Variable { visibility: vis, round: r as usize, index: i as usize };
                        let p = var_degree(prev, w);
                        let dd = if c.inputs@.take(j + 1).contains(w) { d as nat } else { 0 };
                        if p >= dd { p } else { dd }
                    }) by {
                        let w = Variable { visibility: vis, round: r as usize, index: i as usize };
                        if w == v {
                            assert(c.inputs@.take(j + 1)[j as int] == v);
                            assert(r == v.round && i == v.index);
                        } else {
                            assert(!(r == v.round && i == v.index));
                            assert(c.inputs@.take(j + 1).contains(w) == c.inputs@.take(j as int).contains(w)) by {
                                if c.inputs@.take(j + 1).contains(w) {
                                    let x = choose|x: int| 0 <= x < j + 1 && #[trigger] c.inputs@.take(j + 1)[x] == w;
                                    assert(c.inputs@.take(j as int)[x] == w);
                                }
                            }
                        }
                    }
                }
            } else {
                proof {
                    assert forall|r: int, i: int| 0 <= r < t@.len() && 0 <= i < t@[r]@.len() implies #[trigger] t@[r]@[i] == ({
                        let w = Variable { visibility: vis, round: r as usize, index: i as usize };
                        let p = var_degree(prev, w);
                        let dd = if c.inputs@.take(j + 1).contains(w) { d as nat } else { 0 };
                        if p >= dd { p } else { dd }
                    }) by {
                        let w = Variable { visibility: vis, round: r as usize, index: i as usize };
                        assert(w != v);
                        assert(c.inputs@.take(j + 1).contains(w) == c.inputs@.take(j as int).contains(w)) by {
                            if c.inputs@.take(j + 1).contains(w) {
                                let x = choose|x: int| 0 <= x < j + 1 && #[trigger] c.inputs@.take(j + 1)[x] == w;
                                assert(c.inputs@.take(j as int)[x] == w);
                            }
                        }
                    }
                }
            }
            j = j + 1;
        }
        proof {
            assert(c.inputs@.take(j as int) =~= c.inputs@);
            assert(nl.take(k + 1).drop_last() =~= prev);
        }
        k = k + 1;
    }
    proof {
        assert(nl.take(k as int) =~= nl);
    }
    t
}

impl ProtoGalaxyProver {
    pub fn new() -> (r: Self) {
        Self {}
    }

    /// For every public and every private variable of `template`, the largest
    /// degree of a nonlinear constraint that reads it.
    pub fn calculate_powers<G: Gate>(&self, cs: &ProtoGalaxyConstraintSystem<G>, template: &ProtostarWtns) -> (r: (
        Vec<Vec<usize>>,
        Vec<Vec<usize>>,
    ))
        requires
            forall|k: int, j: int|
                0 <= k < cs.nonlinear().len() && 0 <= j < cs.nonlinear()[k].inputs@.len() ==> lhs_readable(
                    template.lhs,
                    #[trigger] cs.nonlinear()[k].inputs@[j],
                ),
            forall|k: int| 0 <= k < cs.nonlinear().len() ==> (#[trigger] cs.nonlinear()[k]).gate.spec_d() <= usize::MAX,
        ensures
            degree_table(r.0@, template.lhs.pubs@, cs.nonlinear(), Visibility::Public),
            degree_table(r.1@, template.lhs.round_wtns@, cs.nonlinear(), Visibility::Private),
    {
        let pubs = degrees_of(cs, &template.lhs.pubs, Visibility::Public);
        let privs = degrees_of(cs, &template.lhs.round_wtns, Visibility::Private);
        (pubs, privs)
    }
}

proof fn lemma_gates_total_mono<G: Gate>(cs: Seq<Constraint<G>>, k: int)
    requires
        0 <= k <= cs.len(),
    ensures
        gates_total(cs.take(k)) <= gates_total(cs),
    decreases cs.len() - k,
{
    if k < cs.len() {
        lemma_gates_total_mono(cs, k + 1);
        assert(cs.take(k + 1).drop_last() =~= cs.take(k));
    } else {
        assert(cs.take(k) =~= cs);
    }
}

proof fn lemma_layout_of_bound<G: Gate>(cs: Seq<Constraint<G>>)
    ensures
        forall|i: int| 0 <= i < layout_of(cs).len() ==> (#[trigger] layout_of(cs)[i]).amount <= gates_total(cs)
            && layout_of(cs)[i].deg <= gates_total(cs),
    decreases cs.len(),
{
    if cs.len() > 0 {
        let prev = layout_of(cs.drop_last());
        lemma_layout_of_bound(cs.drop_last());
        let t = gates_total(cs);
        assert(gates_total(cs.drop_last()) <= t);
        let cur = layout_of(cs);
        assert forall|i: int| 0 <= i < cur.len() implies (#[trigger] cur[i]).amount <= t && cur[i].deg <= t by {
            if i < prev.len() {
                let _ = prev[i];
            }
        }
    }
}

/// The value in `i` of the line through `(0, e0)` and `(1, e1)`.
pub open spec fn line_at(e0: nat, e1: nat, i: int) -> nat {
    fm(e0 + i * (e1 - e0))
}

/// `q` is the value in `i` of `(p - line) / (t (t - 1))`, where `p` takes `v` in `i`.
pub open spec fn is_quotient(q: nat, v: nat, e0: nat, e1: nat, i: int) -> bool {
    fmul(q, fm(i * (i - 1))) == fsub(v, line_at(e0, e1, i))
}

impl ProtoGalaxyProver {
    /// The runs of equal degree of the nonlinear constraints, each with the
    /// number of values its gates output.
    pub fn calculate_layout<G: Gate>(&self, cs: &ProtoGalaxyConstraintSystem<G>) -> (r: Vec<EvalLayout>)
        requires
            gates_total(cs.nonlinear()) <= usize::MAX,
        ensures
            r@ == layout_of(cs.nonlinear()),
    {
        let constrs = cs.iter_non_linear_constraints();
        let ghost nl = cs.nonlinear();
        let mut layout: Vec<EvalLayout> = Vec::new();
        let mut k: usize = 0;
        proof {
            assert(nl.take(0) =~= Seq::<Constraint<G>>::empty());
        }
        while k < constrs.len()
            invariant
                constrs@.len() == nl.len(),
                forall|j: int| 0 <= j < constrs@.len() ==> *(#[trigger] constrs@[j]) == nl[j],
                gates_total(nl) <= usize::MAX,
                k <= nl.len(),
                layout@ == layout_of(nl.take(k as int)),
            decreases nl.len() - k,
        {
            let c = constrs[k];
            let d = c.gate.d();
            let o = c.gate.o();
            proof {
                assert(nl.take(k + 1).drop_last() =~= nl.take(k as int));
                lemma_gates_total_mono(nl, k + 1);
                lemma_layout_of_bound(nl.take(k as int));
            }
            let n = layout.len();
            if n == 0 || layout[n - 1].deg != d {
                layout.push(EvalLayout { deg: d, amount: o });
            } else {
                let last = layout[n - 1];
                layout.set(n - 1, EvalLayout { deg: last.deg, amount: last.amount + o });
            }
            k = k + 1;
        }
        proof {
            assert(nl.take(k as int) =~= nl);
        }
        layout
    }

    /// The challenges of the two witnesses, paired.
    pub fn combine_challenges(&self, a: &Vec<Fe>, b: &Vec<Fe>) -> (r: Vec<[Fe; 2]>)
        requires
            a@.len() == b@.len(),
        ensures
            r@.len() == a@.len(),
            forall|i: int| 0 <= i < r@.len() ==> (#[trigger] r@[i]) == [a@[i], b@[i]],
    {
        let mut out: Vec<[Fe; 2]> = Vec::new();
        let mut i: usize = 0;
        while i < a.len()
            invariant
                a@.len() == b@.len(),
                i <= a@.len(),
                out@.len() == i,
                forall|k: int| 0 <= k < i ==> (#[trigger] out@[k]) == [a@[k], b@[k]],
            decreases a@.len() - i,
        {
            out.push([a[i], b[i]]);
            i = i + 1;
        }
        out
    }

    /// The points `2, 3, ..., d + log_ceil`.
    pub fn prepare_interpolation_points(&self, d: usize, log_ceil: usize) -> (r: Vec<Fe>)
        requires
            d + log_ceil + 1 <= usize::MAX,
        ensures
            r@.len() == if d + log_ceil >= 2 { d + log_ceil - 1 } else { 0 },
            forall|k: int| 0 <= k < r@.len() ==> (#[trigger] r@[k]).val() == k + 2,
    {
        let end = d + log_ceil + 1;
        let mut out: Vec<Fe> = Vec::new();
        let mut x: usize = 2;
        while x < end
            invariant
                end == d + log_ceil + 1,
                2 <= x,
                x <= end || end < 2,
                x >= end ==> x == 2 || x == end,
                out@.len() == x - 2,
                forall|k: int| 0 <= k < out@.len() ==> (#[trigger] out@[k]).val() == k + 2,
            decreases end - x,
        {
            out.push(Fe::from_u64(x as u64));
            x = x + 1;
        }
        out
    }

    /// Subtracts the line through the first two values and divides by
    /// `t (t - 1)`: the first two values become zero, value `i` becomes the
    /// quotient in `i`. Returns the values from index 2 on.
    pub fn leave_quotient<'a>(&self, evals: &'a mut Vec<Fe>) -> (r: &'a [Fe])
        requires
            old(evals)@.len() >= 2,
            (old(evals)@.len() - 1) * (old(evals)@.len() - 2) <= usize::MAX,
        ensures
            final(evals)@.len() == old(evals)@.len(),
            final(evals)@[0].val() == 0,
            final(evals)@[1].val() == 0,
            forall|i: int|
                2 <= i < old(evals)@.len() ==> #[trigger] is_quotient(
                    final(evals)@[i].val(),
                    old(evals)@[i].val(),
                    old(evals)@[0].val(),
                    old(evals)@[1].val(),
                    i,
                ),
            r@ == final(evals)@.subrange(2, old(evals)@.len() as int),
    {
        let n = evals.len();
        let e_0 = evals[0];
        evals.set(0, Fe::zero());
        let mut e_next = evals[1];
        evals.set(1, Fe::zero());
        let diff = e_next.sub(&e_0);
        let ghost e0v = e_0.val();
        let ghost e1v = e_next.val();
        let ghost old_vals = old(evals)@;
        let mut invs: Vec<Fe> = Vec::new();
        let mut i: usize = 2;
        while i < n
            invariant
                n == old_vals.len(),
                (n - 1) * (n - 2) <= usize::MAX,
                2 <= i <= n,
                invs@.len() == i - 2,
                forall|k: int| 0 <= k < invs@.len() ==> (#[trigger] invs@[k]).val() == (k + 2) * (k + 1),
            decreases n - i,
        {
            assert(i * (i - 1) <= (n - 1) * (n - 2)) by (nonlinear_arith)
                requires
                    2 <= i < n,
            ;
            assert(i * (i - 1) >= 2) by (nonlinear_arith)
                requires
                    2 <= i,
            ;
            invs.push(Fe::from_u64((i * (i - 1)) as u64));
            i = i + 1;
        }
        let ghost before_inv = invs@;
        Fe::batch_invert(&mut invs);
        proof {
            assert forall|k: int| 0 <= k < invs@.len() implies is_inverse(((k + 2) * (k + 1)) as nat, #[trigger] invs@[k].val()) by {
                assert((k + 2) * (k + 1) >= 2) by (nonlinear_arith)
                    requires
                        0 <= k,
                ;
                assert(before_inv[k].val() == (k + 2) * (k + 1));
            }
        }
        let mut idx: usize = 2;
        proof {
            e_0.lemma_val_lt();
            e_next.lemma_val_lt();
            lemma_fm_canonical(e1v as int);
        }
        while idx < n
            invariant
                n == old_vals.len(),
                n == evals@.len(),
                (n - 1) * (n - 2) <= usize::MAX,
                old_vals == old(evals)@,
                e0v == old_vals[0].val(),
                e1v == old_vals[1].val(),
                diff.val() == fsub(e1v, e0v),
                evals@[0].val() == 0,
                evals@[1].val() == 0,
                2 <= idx <= n,
                invs@.len() == n - 2,
                forall|k: int| 0 <= k < invs@.len() ==> is_inverse(((k + 2) * (k + 1)) as nat, #[trigger] invs@[k].val()),
                e_next.val() == line_at(e0v, e1v, idx - 1),
                forall|k: int| 2 <= k < idx ==> #[trigger] is_quotient(evals@[k].val(), old_vals[k].val(), e0v, e1v, k),
                forall|k: int| idx <= k < n ==> #[trigger] evals@[k] == old_vals[k],
            decreases n - idx,
        {
            e_next = e_next.add(&diff);
            let x = evals[idx].sub(&e_next);
            let q = x.mul(&invs[idx - 2]);
            evals.set(idx, q);
            proof {
                crate::combine::lemma_line_step_pub(e0v, e1v, idx as int);
                let m = ((idx - 2 + 2) * (idx - 2 + 1)) as nat;
                assert(m == idx * (idx - 1)) by (nonlinear_arith)
                    requires
                        m == (idx - 2 + 2) * (idx - 2 + 1),
                ;
                assert(idx * (idx - 1) <= (n - 1) * (n - 2)) by (nonlinear_arith)
                    requires
                        2 <= idx < n,
                ;
                assert(m < field_modulus()) by (nonlinear_arith)
                    requires
                        m == idx * (idx - 1),
                        idx * (idx - 1) <= (n - 1) * (n - 2),
                        (n - 1) * (n - 2) <= usize::MAX,
                ;
                lemma_fm_canonical(m as int);
                x.lemma_val_lt();
                lemma_fmul_cancel(x.val(), m, invs@[idx - 2].val());
            }
            idx = idx + 1;
        }
        vstd::slice::slice_subrange(evals.as_slice(), 2, n)
    }
}

/// `fin` is `old` with, for every variable of nonzero degree `d`, the values
/// of the line through its values in `a` and `b` in `0..=d` appended.
pub open spec fn combinations_filled(
    fin: Seq<Vec<Vec<Fe>>>,
    old: Seq<Vec<Vec<Fe>>>,
    deg: Seq<Vec<usize>>,
    a: Seq<Vec<Fe>>,
    b: Seq<Vec<Fe>>,
) -> bool {
    &&& fin.len() == old.len()
    &&& forall|r: int| 0 <= r < fin.len() ==> (#[trigger] fin[r])@.len() == old[r]@.len()
    &&& forall|r: int, i: int|
        0 <= r < fin.len() && 0 <= i < fin[r]@.len() ==> vals((#[trigger] fin[r]@[i])@) == vals(old[r]@[i]@) + if deg[r]@[i] != 0 {
            line_vals(a[r]@[i].val(), b[r]@[i].val(), (deg[r]@[i] + 1) as nat)
        } else {
            Seq::<nat>::empty()
        }
}

/// The tables have the same shape.
pub open spec fn same_shape_as<A, B>(x: Seq<Vec<A>>, y: Seq<Vec<B>>) -> bool {
    &&& x.len() == y.len()
    &&& forall|r: int| 0 <= r < x.len() ==> (#[trigger] x[r])@.len() == y[r]@.len()
}

/// Replaces cell `(r, i)` of a table of value lists.
fn set_cell(s: &mut Vec<Vec<Vec<Fe>>>, r: usize, i: usize, cell: Vec<Fe>)
    requires
        r < old(s)@.len(),
        i < old(s)@[r as int]@.len(),
    ensures
        final(s)@.len() == old(s)@.len(),
        forall|k: int| 0 <= k < old(s)@.len() && k != r ==> #[trigger] final(s)@[k] == old(s)@[k],
        final(s)@[r as int]@ == old(s)@[r as int]@.update(i as int, cell),
{
    let mut row = s.remove(r);
    row.set(i, cell);
    s.insert(r, row);
}

/// Empty value lists of the shape of `degrees`.
fn build_variable_combinations_storage(degrees: &Vec<Vec<usize>>) -> (r: Vec<Vec<Vec<Fe>>>)
    ensures
        same_shape_as(r@, degrees@),
        forall|k: int, i: int| 0 <= k < r@.len() && 0 <= i < r@[k]@.len() ==> (#[trigger] r@[k]@[i])@.len() == 0,
{
    let mut out: Vec<Vec<Vec<Fe>>> = Vec::new();
    let mut k: usize = 0;
    while k < degrees.len()
        invariant
            k <= degrees@.len(),
            out@.len() == k,
            forall|j: int| 0 <= j < k ==> (#[trigger] out@[j])@.len() == degrees@[j]@.len(),
            forall|j: int, i: int| 0 <= j < k && 0 <= i < out@[j]@.len() ==> (#[trigger] out@[j]@[i])@.len() == 0,
        decreases degrees@.len() - k,
    {
        let mut row: Vec<Vec<Fe>> = Vec::new();
        let mut i: usize = 0;
        while i < degrees[k].len()
            invariant
                k < degrees@.len(),
                i <= degrees@[k as int]@.len(),
                row@.len() == i,
                forall|j: int| 0 <= j < i ==> (#[trigger] row@[j])@.len() == 0,
            decreases degrees@[k as int]@.len() - i,
        {
            row.push(Vec::new());
            i = i + 1;
        }
        out.push(row);
        k = k + 1;
    }
    out
}

impl ProtoGalaxyProver {
    /// For every variable of nonzero degree `d`, appends its values in
    /// `0..=d` along the line from its value in `a` to its value in `b`.
    pub fn fill_variable_combinations(
        &self,
        storage: &mut Vec<Vec<Vec<Fe>>>,
        degrees: &Vec<Vec<usize>>,
        a: &Vec<Vec<Fe>>,
        b: &Vec<Vec<Fe>>,
    )
        requires
            same_shape_as(old(storage)@, degrees@),
            same_shape_as(degrees@, a@),
            same_shape_as(a@, b@),
            forall|r: int, i: int|
                0 <= r < degrees@.len() && 0 <= i < degrees@[r]@.len() ==> (#[trigger] degrees@[r]@[i]) + 1 <= usize::MAX,
        ensures
            combinations_filled(final(storage)@, old(storage)@, degrees@, a@, b@),
    {
        let ghost st0 = storage@;
        let mut r: usize = 0;
        while r < degrees.len()
            invariant
                same_shape_as(st0, degrees@),
                same_shape_as(degrees@, a@),
                same_shape_as(a@, b@),
                forall|rr: int, i: int|
                    0 <= rr < degrees@.len() && 0 <= i < degrees@[rr]@.len() ==> (#[trigger] degrees@[rr]@[i]) + 1 <= usize::MAX,
                r <= degrees@.len(),
                storage@.len() == st0.len(),
                forall|k: int| 0 <= k < storage@.len() ==> (#[trigger] storage@[k])@.len() == st0[k]@.len(),
                forall|k: int, i: int| r <= k < storage@.len() && 0 <= i < storage@[k]@.len() ==> #[trigger] storage@[k]@[i] == st0[k]@[i],
                forall|k: int, i: int|
                    0 <= k < r && 0 <= i < storage@[k]@.len() ==> vals((#[trigger] storage@[k]@[i])@) == vals(st0[k]@[i]@) + if degrees@[k]@[i] != 0 {
                        line_vals(a@[k]@[i].val(), b@[k]@[i].val(), (degrees@[k]@[i] + 1) as nat)
                    } else {
                        Seq::<nat>::empty()
                    },
            decreases degrees@.len() - r,
        {
            let mut i: usize = 0;
            while i < degrees[r].len()
                invariant
                    same_shape_as(st0, degrees@),
                    same_shape_as(degrees@, a@),
                    same_shape_as(a@, b@),
                    forall|rr: int, ii: int|
                        0 <= rr < degrees@.len() && 0 <= ii < degrees@[rr]@.len() ==> (#[trigger] degrees@[rr]@[ii]) + 1 <= usize::MAX,
                    r < degrees@.len(),
                    i <= degrees@[r as int]@.len(),
                    storage@.len() == st0.len(),
                    forall|k: int| 0 <= k < storage@.len() ==> (#[trigger] storage@[k])@.len() == st0[k]@.len(),
                    forall|k: int, j: int| r < k < storage@.len() && 0 <= j < storage@[k]@.len() ==> #[trigger] storage@[k]@[j] == st0[k]@[j],
                    forall|j: int| i <= j < storage@[r as int]@.len() ==> #[trigger] storage@[r as int]@[j] == st0[r as int]@[j],
                    forall|k: int, j: int|
                        (0 <= k < r && 0 <= j < storage@[k]@.len()) || (k == r && 0 <= j < i) ==> vals((#[trigger] storage@[k]@[j])@) == vals(st0[k]@[j]@) + if degrees@[k]@[j] != 0 {
                            line_vals(a@[k]@[j].val(), b@[k]@[j].val(), (degrees@[k]@[j] + 1) as nat)
                        } else {
                            Seq::<nat>::empty()
                        },
                decreases degrees@[r as int]@.len() - i,
            {
                let d = degrees[r][i];
                if d != 0 {
                    let x = a[r][i];
                    let y = b[r][i];
                    let mut cell = storage[r][i].clone();
                    let ghost c0 = cell@;
                    proof {
                        assert(c0 == st0[r as int]@[i as int]@);
                    }
                    cell.push(x);
                    cell.push(y);
                    let diff = y.sub(&x);
                    let mut base = y;
                    let mut k: usize = 1;
                    proof {
                        x.lemma_val_lt();
                        y.lemma_val_lt();
                        lemma_fm_canonical(x.val() as int);
                        lemma_fm_canonical(y.val() as int);
                        assert(line_vals(x.val(), y.val(), 2)[0] == x.val());
                        assert(line_vals(x.val(), y.val(), 2)[1] == fm(y.val() as int));
                        assert(vals(cell@) =~= vals(c0).push(x.val()).push(y.val()));
                        assert(vals(cell@) =~= vals(c0) + line_vals(x.val(), y.val(), 2));
                    }
                    while k < d
                        invariant
                            1 <= k <= d,
                            d + 1 <= usize::MAX,
                            diff.val() == fsub(y.val(), x.val()),
                            base.val() == line_vals(x.val(), y.val(), (k + 1) as nat)[k as int],
                            vals(cell@) == vals(c0) + line_vals(x.val(), y.val(), (k + 1) as nat),
                        decreases d - k,
                    {
                        let ghost before = vals(cell@);
                        let ghost b0 = base.val();
                        base = base.add(&diff);
                        cell.push(base);
                        proof {
                            crate::combine::lemma_line_step_pub(x.val(), y.val(), (k + 1) as int);
                            assert(b0 == fm(x.val() + k * (y.val() - x.val())));
                            assert(base.val() == fm(x.val() + (k + 1) * (y.val() - x.val())));
                            assert(vals(cell@) =~= before.push(base.val()));
                            assert(line_vals(x.val(), y.val(), (k + 2) as nat) =~= line_vals(x.val(), y.val(), (k + 1) as nat).push(base.val()));
                            assert(vals(cell@) =~= vals(c0) + line_vals(x.val(), y.val(), (k + 2) as nat));
                        }
                        k = k + 1;
                    }
                    set_cell(storage, r, i, cell);
                }
                i = i + 1;
            }
            r = r + 1;
        }
    }
}

/// The value that the line tables give variable `v` in point `d`.
pub open spec fn comb_value(v: Variable, pc: Seq<Vec<Vec<Fe>>>, vc: Seq<Vec<Vec<Fe>>>, d: int) -> Fe {
    match v.visibility {
        Visibility::Public => pc[v.round as int]@[v.index as int]@[d],
        Visibility::Private => vc[v.round as int]@[v.index as int]@[d],
    }
}

/// The line tables hold at least `n` values for variable `v`.
pub open spec fn comb_readable(v: Variable, pc: Seq<Vec<Vec<Fe>>>, vc: Seq<Vec<Vec<Fe>>>, n: nat) -> bool {
    match v.visibility {
        Visibility::Public => v.round < pc.len() && v.index < pc[v.round as int]@.len()
            && pc[v.round as int]@[v.index as int]@.len() >= n,
        Visibility::Private => v.round < vc.len() && v.index < vc[v.round as int]@.len()
            && vc[v.round as int]@[v.index as int]@.len() >= n,
    }
}

/// The values of `vars` in point `d`.
pub open spec fn comb_inputs(vars: Seq<Variable>, pc: Seq<Vec<Vec<Fe>>>, vc: Seq<Vec<Vec<Fe>>>, d: int) -> Seq<Fe> {
    Seq::new(vars.len(), |j: int| comb_value(vars[j], pc, vc, d))
}

/// The outputs of the constraint's gate in the points `0..n`, one point after the other.
pub open spec fn constraint_evals<G: Gate>(c: Constraint<G>, pc: Seq<Vec<Vec<Fe>>>, vc: Seq<Vec<Vec<Fe>>>, n: nat) -> Seq<nat>
    decreases n,
{
    if n == 0 {
        Seq::empty()
    } else {
        constraint_evals(c, pc, vc, (n - 1) as nat) + c.gate.spec_exec(comb_inputs(c.inputs@, pc, vc, n - 1))
    }
}

/// The outputs of the gates of `cs` in the points `0..=d` of their degree,
/// constraint after constraint.
pub open spec fn evaluations<G: Gate>(cs: Seq<Constraint<G>>, pc: Seq<Vec<Vec<Fe>>>, vc: Seq<Vec<Vec<Fe>>>) -> Seq<nat>
    decreases cs.len(),
{
    if cs.len() == 0 {
        Seq::empty()
    } else {
        evaluations(cs.drop_last(), pc, vc) + constraint_evals(cs.last(), pc, vc, cs.last().gate.spec_d() + 1)
    }
}

/// Reads the value of a variable in point `d`.
fn read_comb(v: Variable, pc: &Vec<Vec<Vec<Fe>>>, vc: &Vec<Vec<Vec<Fe>>>, d: usize) -> (r: Fe)
    requires
        comb_readable(v, pc@, vc@, (d + 1) as nat),
    ensures
        r == comb_value(v, pc@, vc@, d as int),
{
    match v.visibility {
        Visibility::Public => pc[v.round][v.index][d],
        Visibility::Private => vc[v.round][v.index][d],
    }
}

impl ProtoGalaxyProver {
    /// The outputs of the gates of the nonlinear constraints in the points
    /// `0..=d` of their degree, reading the variables from the line tables.
    pub fn evaluate<G: Gate>(
        &self,
        cs: &ProtoGalaxyConstraintSystem<G>,
        pubs_combinations: &Vec<Vec<Vec<Fe>>>,
        privs_combinations: &Vec<Vec<Vec<Fe>>>,
    ) -> (r: Vec<Fe>)
        requires
            forall|k: int| 0 <= k < cs.nonlinear().len() ==> (#[trigger] cs.nonlinear()[k]).inputs@.len() == cs.nonlinear()[k].gate.spec_i()
                && cs.nonlinear()[k].gate.spec_d() + 1 <= usize::MAX,
            forall|k: int, j: int|
                0 <= k < cs.nonlinear().len() && 0 <= j < cs.nonlinear()[k].inputs@.len() ==> comb_readable(
                    #[trigger] cs.nonlinear()[k].inputs@[j],
                    pubs_combinations@,
                    privs_combinations@,
                    cs.nonlinear()[k].gate.spec_d() + 1,
                ),
            gates_total(cs.nonlinear()) <= usize::MAX,
        ensures
            vals(r@) == evaluations(cs.nonlinear(), pubs_combinations@, privs_combinations@),
            r@.len() == layout_size(layout_of(cs.nonlinear())),
    {
        let ghost pc = pubs_combinations@;
        let ghost vc = privs_combinations@;
        let constrs = cs.iter_non_linear_constraints();
        let ghost nl = cs.nonlinear();
        let mut evals: Vec<Fe> = Vec::new();
        let mut k: usize = 0;
        proof {
            assert(nl.take(0) =~= Seq::<Constraint<G>>::empty());
        }
        while k < constrs.len()
            invariant
                constrs@.len() == nl.len(),
                forall|j: int| 0 <= j < constrs@.len() ==> *(#[trigger] constrs@[j]) == nl[j],
                forall|kk: int| 0 <= kk < nl.len() ==> (#[trigger] nl[kk]).inputs@.len() == nl[kk].gate.spec_i() && nl[kk].gate.spec_d() + 1
                    <= usize::MAX,
                forall|kk: int, j: int|
                    0 <= kk < nl.len() && 0 <= j < nl[kk].inputs@.len() ==> comb_readable(
                        #[trigger] nl[kk].inputs@[j],
                        pc,
                        vc,
                        nl[kk].gate.spec_d() + 1,
                    ),
                pc == pubs_combinations@,
                vc == privs_combinations@,
                k <= nl.len(),
                vals(evals@) == evaluations(nl.take(k as int), pc, vc),
                gates_total(nl) <= usize::MAX,
                evals@.len() == layout_size(layout_of(nl.take(k as int))),
            decreases nl.len() - k,
        {
            let c = constrs[k];
            let dmax = c.gate.d();
            let ghost base = vals(evals@);
            let ghost base_len = evals@.len();
            let mut d: usize = 0;
            proof {
                assert(base + constraint_evals(*c, pc, vc, 0) =~= base);
            }
            while d <= dmax
                invariant
                    *c == nl[k as int],
                    0 <= k < nl.len(),
                    dmax == c.gate.spec_d(),
                    dmax + 1 <= usize::MAX,
                    c.inputs@.len() == c.gate.spec_i(),
                    forall|j: int| 0 <= j < c.inputs@.len() ==> comb_readable(#[trigger] c.inputs@[j], pc, vc, (dmax + 1) as nat),
                    pc == pubs_combinations@,
                    vc == privs_combinations@,
                    d <= dmax + 1,
                    vals(evals@) == base + constraint_evals(*c, pc, vc, d as nat),
                    evals@.len() == base_len + d * c.gate.spec_o(),
                decreases dmax + 1 - d,
            {
                let mut input: Vec<Fe> = Vec::new();
                let mut j: usize = 0;
                while j < c.inputs.len()
                    invariant
                        d <= dmax,
                        forall|jj: int| 0 <= jj < c.inputs@.len() ==> comb_readable(#[trigger] c.inputs@[jj], pc, vc, (dmax + 1) as nat),
                        pc == pubs_combinations@,
                        vc == privs_combinations@,
                        j <= c.inputs@.len(),
                        input@ == comb_inputs(c.inputs@, pc, vc, d as int).take(j as int),
                    decreases c.inputs@.len() - j,
                {
                    let x = read_comb(c.inputs[j], pubs_combinations, privs_combinations, d);
                    proof {
                        assert(comb_inputs(c.inputs@, pc, vc, d as int).take(j + 1) =~= comb_inputs(c.inputs@, pc, vc, d as int).take(j as int).push(x));
                    }
                    input.push(x);
                    j = j + 1;
                }
                proof {
                    assert(comb_inputs(c.inputs@, pc, vc, d as int).take(j as int) =~= comb_inputs(c.inputs@, pc, vc, d as int));
                }
                let out = c.gate.exec(&input);
                let ghost mid = vals(evals@);
                let mut t: usize = 0;
                while t < out.len()
                    invariant
                        t <= out@.len(),
                        vals(evals@) == mid + vals(out@).take(t as int),
                    decreases out@.len() - t,
                {
                    evals.push(out[t]);
                    proof {
                        assert(vals(out@).take(t + 1) =~= vals(out@).take(t as int).push(out@[t as int].val()));
                        assert(vals(evals@) =~= (mid + vals(out@).take(t as int)).push(out@[t as int].val()));
                    }
                    t = t + 1;
                }
                proof {
                    assert(vals(out@).take(t as int) =~= vals(out@));
                    assert(constraint_evals(*c, pc, vc, (d + 1) as nat) == constraint_evals(*c, pc, vc, d as nat) + vals(out@));
                    assert(vals(evals@) =~= base + constraint_evals(*c, pc, vc, (d + 1) as nat));
                    assert(base_len + d * c.gate.spec_o() + c.gate.spec_o() == base_len + (d + 1) * c.gate.spec_o()) by (nonlinear_arith);
                }
                d = d + 1;
            }
            proof {
                assert(nl.take(k + 1).drop_last() =~= nl.take(k as int));
                assert(nl.take(k + 1).last() == *c);
                lemma_gates_total_mono(nl, k + 1);
                lemma_layout_size_step(nl.take(k + 1));
            }
            k = k + 1;
        }
        proof {
            assert(nl.take(k as int) =~= nl);
        }
        evals
    }
}

/// Appending a constraint grows the layout's size by its outputs in all
/// the points of its degree.
proof fn lemma_layout_size_step<G: Gate>(cs: Seq<Constraint<G>>)
    requires
        cs.len() > 0,
        gates_total(cs) <= usize::MAX,
    ensures
        layout_size(layout_of(cs)) == layout_size(layout_of(cs.drop_last())) + (cs.last().gate.spec_d() + 1) * cs.last().gate.spec_o(),
{
    let prev = layout_of(cs.drop_last());
    let c = cs.last();
    let d = c.gate.spec_d();
    let o = c.gate.spec_o();
    lemma_layout_of_bound(cs.drop_last());
    let cur = layout_of(cs);
    if prev.len() == 0 || prev.last().deg != d {
        assert(cur.drop_last() =~= prev);
    } else {
        let amt = prev.last().amount;
        assert(amt <= gates_total(cs.drop_last()));
        assert(cur.drop_last() =~= prev.drop_last());
        assert(cur.last().amount == amt + o);
        assert((d + 1) * (amt + o) == (d + 1) * amt + (d + 1) * o) by (nonlinear_arith);
    }
}

/// A constraint that reads `v` bounds its degree from below.
proof fn lemma_var_degree_ge<G: Gate>(cs: Seq<Constraint<G>>, k: int, v: Variable)
    requires
        0 <= k < cs.len(),
        cs[k].inputs@.contains(v),
    ensures
        var_degree(cs, v) >= cs[k].gate.spec_d(),
    decreases cs.len(),
{
    if k < cs.len() - 1 {
        lemma_var_degree_ge(cs.drop_last(), k, v);
        assert(cs.drop_last()[k] == cs[k]);
    }
}

/// Degrees of variables and of gates are bounded by the gates' total.
proof fn lemma_degrees_bounded<G: Gate>(cs: Seq<Constraint<G>>)
    ensures
        forall|v: Variable| #[trigger] var_degree(cs, v) <= gates_total(cs),
        forall|k: int| 0 <= k < cs.len() ==> (#[trigger] cs[k]).gate.spec_d() <= gates_total(cs),
    decreases cs.len(),
{
    if cs.len() > 0 {
        lemma_degrees_bounded(cs.drop_last());
        assert forall|v: Variable| #[trigger] var_degree(cs, v) <= gates_total(cs) by {
            assert(var_degree(cs.drop_last(), v) <= gates_total(cs.drop_last()));
        }
        assert forall|k: int| 0 <= k < cs.len() implies (#[trigger] cs[k]).gate.spec_d() <= gates_total(cs) by {
            if k < cs.len() - 1 {
                assert(cs.drop_last()[k] == cs[k]);
            }
        }
    }
}

/// `t` holds, for each variable of visibility `vis` of a witness of the
/// shape of `a`, the values in `0..=d` of the line from its value in `a` to
/// its value in `b`, where `d` is its degree in `cs`; nothing for degree zero.
pub open spec fn line_tables<G: Gate>(
    t: Seq<Vec<Vec<Fe>>>,
    cs: Seq<Constraint<G>>,
    vis: Visibility,
    a: Seq<Vec<Fe>>,
    b: Seq<Vec<Fe>>,
) -> bool {
    &&& t.len() == a.len()
    &&& forall|r: int| 0 <= r < t.len() ==> (#[trigger] t[r])@.len() == a[r]@.len()
    &&& forall|r: int, i: int|
        0 <= r < t.len() && 0 <= i < t[r]@.len() ==> vals((#[trigger] t[r]@[i])@) == if var_degree(
            cs,
            Variable { visibility: vis, round: r as usize, index: i as usize },
        ) != 0 {
            line_vals(
                a[r]@[i].val(),
                b[r]@[i].val(),
                var_degree(cs, Variable { visibility: vis, round: r as usize, index: i as usize }) + 1,
            )
        } else {
            Seq::<nat>::empty()
        }
}

/// The challenges of the two witnesses, paired, by value.
pub open spec fn challenge_pairs(a: ProtostarWtns, b: ProtostarWtns) -> Seq<(nat, nat)> {
    Seq::new(
        a.lhs.protostar_challenges@.len(),
        |i: int| (a.lhs.protostar_challenges@[i].val(), b.lhs.protostar_challenges@[i].val()),
    )
}

/// The number of values that the combination of the cross terms leaves:
/// those of the layout after the rounds.
pub open spec fn combined_len(l: Seq<EvalLayout>, nv: nat) -> nat {
    layout_size(layouts_from(l, nv)[nv as int])
}

/// What the prover computes before the interpolation: `pc` and `vc` are the
/// line tables of the public and private variables, `comb` the evaluations
/// of the nonlinear constraints on them combined under the paired
/// challenges, and `q` the values of `comb` past the first two, each
/// turned into the quotient by `t (t - 1)` after the line through the first
/// two is taken off.
pub open spec fn cross_term_trace<G: Gate>(
    cs: Seq<Constraint<G>>,
    a: ProtostarWtns,
    b: ProtostarWtns,
    pc: Seq<Vec<Vec<Fe>>>,
    vc: Seq<Vec<Vec<Fe>>>,
    comb: Seq<nat>,
    q: Seq<nat>,
) -> bool {
    let l = layout_of(cs);
    let nv = a.lhs.protostar_challenges@.len();
    &&& line_tables(pc, cs, Visibility::Public, a.lhs.pubs@, b.lhs.pubs@)
    &&& line_tables(vc, cs, Visibility::Private, a.lhs.round_wtns@, b.lhs.round_wtns@)
    &&& comb.len() == combined_len(l, nv)
    &&& split_polys(comb, layouts_from(l, nv)[nv as int]) == combine_polys(split_polys(evaluations(cs, pc, vc), l), challenge_pairs(a, b))
    &&& q.len() + 2 == comb.len()
    &&& forall|i: int| 0 <= i < q.len() ==> #[trigger] is_quotient(q[i], comb[i + 2], comb[0], comb[1], i + 2)
}

/// The witnesses fit the constraint system and each other, and the sizes
/// fit the combination of the cross terms and the machine.
pub open spec fn prove_ready<G: Gate>(cs: ProtoGalaxyConstraintSystem<G>, a: ProtostarWtns, b: ProtostarWtns) -> bool {
    let nl = cs.nonlinear();
    let l = layout_of(nl);
    let nv = a.lhs.protostar_challenges@.len();
    &&& cs.wf()
    &&& same_shape_as(a.lhs.pubs@, b.lhs.pubs@)
    &&& same_shape_as(a.lhs.round_wtns@, b.lhs.round_wtns@)
    &&& b.lhs.protostar_challenges@.len() == nv
    &&& forall|k: int, j: int|
        0 <= k < nl.len() && 0 <= j < nl[k].inputs@.len() ==> lhs_readable(a.lhs, #[trigger] nl[k].inputs@[j])
    &&& forall|k: int| 0 <= k < nl.len() ==> (#[trigger] nl[k]).inputs@.len() == nl[k].gate.spec_i() && nl[k].gate.spec_d() >= 1
    &&& gates_total(nl) < usize::MAX
    &&& l.len() > 0
    &&& layout_sorted(l)
    &&& l[l.len() - 1].amount > 0
    &&& nv > 0
    &&& vstd::arithmetic::power2::pow2((nv - 1) as nat) < layout_polys(l)
    &&& layout_polys(l) <= vstd::arithmetic::power2::pow2(nv as nat)
    &&& l[l.len() - 1].deg + nv <= 29
    &&& forall|k: int| 0 <= k < l.len() ==> (#[trigger] l[k]).amount < usize::MAX
    &&& buffers_fit(layouts_from(l, nv), nv)
    &&& combined_len(l, nv) >= 2
    &&& (combined_len(l, nv) - 1) * (combined_len(l, nv) - 2) <= usize::MAX
    &&& cs.max_deg() + nv + 1 <= usize::MAX
}

impl ProtoGalaxyProver {
    /// Everything the prover computes from two witnesses, up to the
    /// interpolation: the points `2, 3, ..., d + log` (`d` the largest degree)
    /// and the values
    /// in them of the quotient of the combined cross terms.
    pub fn interpolation_data<G: Gate>(
        &self,
        a: &ProtostarWtns,
        b: &ProtostarWtns,
        cs: &ProtoGalaxyConstraintSystem<G>,
    ) -> (r: (Vec<Fe>, Vec<Fe>))
        requires
            prove_ready(*cs, *a, *b),
        ensures
            r.0@.len() == if cs.max_deg() + a.lhs.protostar_challenges@.len() >= 2 {
                cs.max_deg() + a.lhs.protostar_challenges@.len() - 1
            } else {
                0
            },
            forall|k: int| 0 <= k < r.0@.len() ==> (#[trigger] r.0@[k]).val() == k + 2,
            exists|pc: Seq<Vec<Vec<Fe>>>, vc: Seq<Vec<Vec<Fe>>>, comb: Seq<nat>| #[trigger] cross_term_trace(
                cs.nonlinear(),
                *a,
                *b,
                pc,
                vc,
                comb,
                vals(r.1@),
            ),
    {
        let ghost nl = cs.nonlinear();
        let ghost l = layout_of(nl);
        let ghost nv = a.lhs.protostar_challenges@.len();
        proof {
            lemma_degrees_bounded(nl);
        }
        let (pubs_degrees, privs_degrees) = self.calculate_powers(cs, a);
        let layout = self.calculate_layout(cs);
        let mut privs_combinations = build_variable_combinations_storage(&privs_degrees);
        let mut pubs_combinations = build_variable_combinations_storage(&pubs_degrees);
        let ghost privs_empty = privs_combinations@;
        let ghost pubs_empty = pubs_combinations@;
        proof {
            assert forall|r: int, i: int|
                0 <= r < privs_degrees@.len() && 0 <= i < privs_degrees@[r]@.len() implies (#[trigger] privs_degrees@[r]@[i]) + 1 <= usize::MAX by {
                assert(privs_degrees@[r]@[i] == var_degree(nl, Variable { visibility: Visibility::Private, round: r as usize, index: i as usize }));
            }
            assert forall|r: int, i: int|
                0 <= r < pubs_degrees@.len() && 0 <= i < pubs_degrees@[r]@.len() implies (#[trigger] pubs_degrees@[r]@[i]) + 1 <= usize::MAX by {
                assert(pubs_degrees@[r]@[i] == var_degree(nl, Variable { visibility: Visibility::Public, round: r as usize, index: i as usize }));
            }
        }
        self.fill_variable_combinations(&mut privs_combinations, &privs_degrees, &a.lhs.round_wtns, &b.lhs.round_wtns);
        self.fill_variable_combinations(&mut pubs_combinations, &pubs_degrees, &a.lhs.pubs, &b.lhs.pubs);
        let ghost pc = pubs_combinations@;
        let ghost vc = privs_combinations@;
        proof {
            assert forall|r: int, i: int| 0 <= r < pc.len() && 0 <= i < pc[r]@.len() implies vals((#[trigger] pc[r]@[i])@) == if var_degree(
                nl,
                Variable { visibility: Visibility::Public, round: r as usize, index: i as usize },
            ) != 0 {
                line_vals(
                    a.lhs.pubs@[r]@[i].val(),
                    b.lhs.pubs@[r]@[i].val(),
                    var_degree(nl, Variable { visibility: Visibility::Public, round: r as usize, index: i as usize }) + 1,
                )
            } else {
                Seq::<nat>::empty()
            } by {
                assert(vals(pubs_empty[r]@[i]@) =~= Seq::<nat>::empty());
            }
            assert forall|r: int, i: int| 0 <= r < vc.len() && 0 <= i < vc[r]@.len() implies vals((#[trigger] vc[r]@[i])@) == if var_degree(
                nl,
                Variable { visibility: Visibility::Private, round: r as usize, index: i as usize },
            ) != 0 {
                line_vals(
                    a.lhs.round_wtns@[r]@[i].val(),
                    b.lhs.round_wtns@[r]@[i].val(),
                    var_degree(nl, Variable { visibility: Visibility::Private, round: r as usize, index: i as usize }) + 1,
                )
            } else {
                Seq::<nat>::empty()
            } by {
                assert(vals(privs_empty[r]@[i]@) =~= Seq::<nat>::empty());
            }
            assert(line_tables(pc, nl, Visibility::Public, a.lhs.pubs@, b.lhs.pubs@));
            assert(line_tables(vc, nl, Visibility::Private, a.lhs.round_wtns@, b.lhs.round_wtns@));
            assert forall|k: int, j: int|
                0 <= k < nl.len() && 0 <= j < nl[k].inputs@.len() implies comb_readable(
                #[trigger] nl[k].inputs@[j],
                pc,
                vc,
                nl[k].gate.spec_d() + 1,
            ) by {
                let v = nl[k].inputs@[j];
                assert(nl[k].inputs@.contains(v));
                lemma_var_degree_ge(nl, k, v);
                assert(v == Variable { visibility: v.visibility, round: v.round, index: v.index });
                assert(lhs_readable(a.lhs, v));
                match v.visibility {
                    Visibility::Public => {
                        assert(vals(pc[v.round as int]@[v.index as int]@).len() == pc[v.round as int]@[v.index as int]@.len());
                    },
                    Visibility::Private => {
                        assert(vals(vc[v.round as int]@[v.index as int]@).len() == vc[v.round as int]@[v.index as int]@.len());
                    },
                }
            }
        }
        let evals = self.evaluate(cs, &pubs_combinations, &privs_combinations);
        let pg = self.combine_challenges(&a.lhs.protostar_challenges, &b.lhs.protostar_challenges);
        proof {
            assert(pt_pairs(pg@) =~= challenge_pairs(*a, *b));
        }
        let mut cross = combine_cross_terms(evals, layout, pg);
        let ghost comb = vals(cross@);
        let q = self.leave_quotient(&mut cross);
        let qv = vstd::slice::slice_to_vec(q);
        let max_degree = cs.max_degree();
        let points = self.prepare_interpolation_points(max_degree, a.lhs.protostar_challenges.len());
        proof {
            assert forall|i: int| 0 <= i < vals(qv@).len() implies #[trigger] is_quotient(
                vals(qv@)[i],
                comb[i + 2],
                comb[0],
                comb[1],
                i + 2,
            ) by {
                assert(qv@[i] == cross@[i + 2]);
            }
        }
        let r = (points, qv);
        assert(cross_term_trace(cs.nonlinear(), *a, *b, pc, vc, comb, vals(r.1@)));
        r
    }
}

} // verus!
