//! The combination of cross terms: polynomials given by their values are
//! merged pairwise, one challenge per round, until one polynomial is left.

use vstd::prelude::*;
use vstd::arithmetic::power2::pow2;
use crate::field::{Fe, fadd, fsub, fm, field_modulus, vals, lemma_fadd_fm, lemma_fsub_fm, lemma_fm_canonical};
use crate::cross_terms::{
    EvalLayout, layout_size, layout_polys, layout_sorted, binom, next_layout, carry_into, layouts_from,
    layout_bounded, extend_val, merge_vals, extend, merge, compute_binomial_coefficients, compute_layouts,
    lemma_halves_prefix, lemma_layouts_from_len, lemma_carry_bit, lemma_layout_size_prefix, lemma_layout_size_mono,
    law_next_layout_halves, SanitizeLayout, ipoly, poly_vals, law_extend_val_extrapolates, law_merge_vals,
    coeff_add, lemma_ipoly_add,
};
use crate::field::fmul;

verus! {

/// Row `k` of Pascal's triangle.
pub open spec fn binom_row(k: nat) -> Seq<u64> {
    Seq::new(k + 1, |j: int| binom(k, j as nat) as u64)
}

/// The values `p` extended one point at a time, each by `extend_val`, until
/// there are `n` of them.
pub open spec fn raise(p: Seq<nat>, n: nat) -> Seq<nat>
    decreases n - p.len(),
{
    if p.len() >= n {
        p
    } else {
        raise(p.push(extend_val(p, binom_row(p.len()))), n)
    }
}

/// The values in `0..n` of the line through `(0, p0)` and `(1, p1)`.
pub open spec fn line_vals(p0: nat, p1: nat, n: nat) -> Seq<nat> {
    Seq::new(n, |k: int| fm(p0 + k * (p1 - p0)))
}

/// The merge of `x` and `y`, `x` raised to the length of `y`: `x + y * line`
/// in one point more than `y` has.
pub open spec fn pair_merge(x: Seq<nat>, y: Seq<nat>, p0: nat, p1: nat) -> Seq<nat> {
    merge_vals(raise(x, y.len()), y, line_vals(p0, p1, y.len() + 1), binom_row(y.len()))
}

/// Raising the values in `0..m` of a polynomial of degree below `m` gives its
/// values in `0..n`.
pub proof fn law_raise(c: Seq<int>, m: nat, n: nat)
    requires
        c.len() <= m,
        n <= 65,
    ensures
        raise(poly_vals(c, m), n) == if m >= n { poly_vals(c, m) } else { poly_vals(c, n) },
    decreases n - m,
{
    if m < n {
        law_extend_val_extrapolates(c, m);
        assert(poly_vals(c, m).push(extend_val(poly_vals(c, m), binom_row(m))) =~= poly_vals(c, m + 1));
        law_raise(c, m + 1, n);
    }
}

/// A merge of two polynomials of degree below `b`, the first given in
/// `0..a` and the second in `0..b`, gives the values in `0..=b` of
/// `p + q l`, with `l` the line through `(0, p0)` and `(1, p1)`.
pub proof fn law_pair_merge(p: Seq<int>, q: Seq<int>, a: nat, b: nat, p0: nat, p1: nat)
    requires
        p.len() <= a <= b,
        q.len() <= b,
        b <= 64,
    ensures
        pair_merge(poly_vals(p, a), poly_vals(q, b), p0, p1) == Seq::new(
            b + 1,
            |i: int| fadd(fm(ipoly(p, i)), fmul(fm(ipoly(q, i)), fm(p0 + i * (p1 - p0)))),
        ),
{
    law_raise(p, a, b);
    assert(raise(poly_vals(p, a), b) == poly_vals(p, b));
    assert(poly_vals(q, b).len() == b);
    law_merge_vals(p, q, line_vals(p0, p1, b + 1), b);
    let r = pair_merge(poly_vals(p, a), poly_vals(q, b), p0, p1);
    let e = Seq::new(b + 1, |i: int| fadd(fm(ipoly(p, i)), fmul(fm(ipoly(q, i)), fm(p0 + i * (p1 - p0)))));
    assert(r =~= e);
}

/// One round: consecutive polynomials merged pairwise; an odd last one is
/// extended by one point and kept alone.
pub open spec fn phase_polys(ps: Seq<Seq<nat>>, p0: nat, p1: nat) -> Seq<Seq<nat>> {
    Seq::new(
        ((ps.len() + 1) / 2) as nat,
        |j: int|
            if 2 * j + 1 < ps.len() {
                pair_merge(ps[2 * j], ps[2 * j + 1], p0, p1)
            } else {
                raise(ps[2 * j], ps[2 * j].len() + 1)
            },
    )
}

/// All rounds, one per challenge pair.
pub open spec fn combine_polys(ps: Seq<Seq<nat>>, pts: Seq<(nat, nat)>) -> Seq<Seq<nat>>
    decreases pts.len(),
{
    if pts.len() == 0 {
        ps
    } else {
        combine_polys(phase_polys(ps, pts[0].0, pts[0].1), pts.drop_first())
    }
}

/// The coefficients of `a q`.
pub open spec fn coeff_scale(q: Seq<int>, a: int) -> Seq<int> {
    Seq::new(q.len(), |i: int| a * q[i])
}

/// The coefficients of `l q`, with `l` the line through `(0, p0)` and
/// `(1, p1)`.
pub open spec fn coeff_line_mul(q: Seq<int>, p0: nat, p1: nat) -> Seq<int> {
    coeff_add(coeff_scale(q, p0 as int), seq![0int] + coeff_scale(q, p1 - p0))
}

/// The line through `(0, p0)` and `(1, p1)` in `x`.
pub open spec fn line_at(p0: nat, p1: nat, x: int) -> int {
    p0 + x * (p1 - p0)
}

/// One round on coefficients: consecutive polynomials `p, q` become
/// `p + l q`; an odd last one stays.
pub open spec fn phase_coeffs(cs: Seq<Seq<int>>, p0: nat, p1: nat) -> Seq<Seq<int>> {
    Seq::new(
        ((cs.len() + 1) / 2) as nat,
        |j: int|
            if 2 * j + 1 < cs.len() {
                coeff_add(cs[2 * j], coeff_line_mul(cs[2 * j + 1], p0, p1))
            } else {
                cs[2 * j]
            },
    )
}

/// All rounds on coefficients, one per challenge pair.
pub open spec fn combine_coeffs(cs: Seq<Seq<int>>, pts: Seq<(nat, nat)>) -> Seq<Seq<int>>
    decreases pts.len(),
{
    if pts.len() == 0 {
        cs
    } else {
        combine_coeffs(phase_coeffs(cs, pts[0].0, pts[0].1), pts.drop_first())
    }
}

/// The weight of polynomial `i`: the product of the lines of the challenges
/// whose bit is set in `i`.
pub open spec fn bit_weight(i: nat, pts: Seq<(nat, nat)>, x: int) -> int
    decreases pts.len(),
{
    if pts.len() == 0 {
        1
    } else {
        (if i % 2 == 1 { line_at(pts[0].0, pts[0].1, x) } else { 1 }) * bit_weight(i / 2, pts.drop_first(), x)
    }
}

/// `sum_{i < n} p_i(x) * bit_weight(i)`.
pub open spec fn weighted_sum(cs: Seq<Seq<int>>, pts: Seq<(nat, nat)>, x: int, n: nat) -> int
    decreases n,
{
    if n == 0 {
        0
    } else {
        weighted_sum(cs, pts, x, (n - 1) as nat) + ipoly(cs[n - 1], x) * bit_weight((n - 1) as nat, pts, x)
    }
}

proof fn lemma_ipoly_scale(q: Seq<int>, a: int, x: int)
    ensures
        ipoly(coeff_scale(q, a), x) == a * ipoly(q, x),
    decreases q.len(),
{
    if q.len() > 0 {
        lemma_ipoly_scale(q.drop_first(), a, x);
        assert(coeff_scale(q, a).drop_first() =~= coeff_scale(q.drop_first(), a));
        let r = ipoly(q.drop_first(), x);
        assert(a * q[0] + x * (a * r) == a * (q[0] + x * r)) by (nonlinear_arith);
    } else {
        assert(a * 0 == 0) by (nonlinear_arith);
    }
}

proof fn lemma_ipoly_line_mul(q: Seq<int>, p0: nat, p1: nat, x: int)
    ensures
        ipoly(coeff_line_mul(q, p0, p1), x) == line_at(p0, p1, x) * ipoly(q, x),
        coeff_line_mul(q, p0, p1).len() == q.len() + 1,
{
    let s0 = coeff_scale(q, p0 as int);
    let s1 = coeff_scale(q, p1 - p0);
    let sh = seq![0int] + s1;
    lemma_ipoly_scale(q, p0 as int, x);
    lemma_ipoly_scale(q, p1 - p0, x);
    lemma_ipoly_add(s0, sh, x);
    assert(sh.drop_first() =~= s1);
    assert(ipoly(sh, x) == 0 + x * ipoly(s1, x));
    let v = ipoly(q, x);
    assert(p0 * v + x * ((p1 - p0) * v) == (p0 + x * (p1 - p0)) * v) by (nonlinear_arith);
}

/// A round keeps the weighted sum of the first `2m` polynomials.
proof fn lemma_weighted_pairs(cs: Seq<Seq<int>>, pts: Seq<(nat, nat)>, x: int, m: nat)
    requires
        pts.len() >= 1,
        2 * m <= cs.len(),
    ensures
        weighted_sum(cs, pts, x, 2 * m) == weighted_sum(
            phase_coeffs(cs, pts[0].0, pts[0].1),
            pts.drop_first(),
            x,
            m,
        ),
    decreases m,
{
    if m > 0 {
        let k = (m - 1) as nat;
        lemma_weighted_pairs(cs, pts, x, k);
        let ph = phase_coeffs(cs, pts[0].0, pts[0].1);
        let rest = pts.drop_first();
        let l = line_at(pts[0].0, pts[0].1, x);
        let w = bit_weight(k, rest, x);
        assert((2 * k) / 2 == k && (2 * k + 1) / 2 == k);
        assert(bit_weight(2 * k, pts, x) == 1 * w);
        assert(bit_weight(2 * k + 1, pts, x) == l * w);
        let a = ipoly(cs[2 * k as int], x);
        let b = ipoly(cs[2 * k as int + 1], x);
        lemma_ipoly_line_mul(cs[2 * k as int + 1], pts[0].0, pts[0].1, x);
        lemma_ipoly_add(cs[2 * k as int], coeff_line_mul(cs[2 * k as int + 1], pts[0].0, pts[0].1), x);
        assert(ipoly(ph[k as int], x) == a + l * b);
        assert(2 * m == 2 * k + 2);
        assert(weighted_sum(cs, pts, x, (2 * k + 1) as nat) == weighted_sum(cs, pts, x, 2 * k) + a * bit_weight(
            2 * k,
            pts,
            x,
        ));
        assert(weighted_sum(cs, pts, x, (2 * k + 2) as nat) == weighted_sum(cs, pts, x, (2 * k + 1) as nat) + b
            * bit_weight((2 * k + 1) as nat, pts, x));
        assert(a * (1 * w) + b * (l * w) == (a + l * b) * w) by (nonlinear_arith);
    }
}

/// A round keeps the weighted sum.
proof fn lemma_weighted_phase(cs: Seq<Seq<int>>, pts: Seq<(nat, nat)>, x: int)
    requires
        pts.len() >= 1,
    ensures
        weighted_sum(cs, pts, x, cs.len()) == weighted_sum(
            phase_coeffs(cs, pts[0].0, pts[0].1),
            pts.drop_first(),
            x,
            ((cs.len() + 1) / 2) as nat,
        ),
{
    let m = cs.len() / 2;
    lemma_weighted_pairs(cs, pts, x, m);
    if cs.len() % 2 == 1 {
        let ph = phase_coeffs(cs, pts[0].0, pts[0].1);
        let rest = pts.drop_first();
        let w = bit_weight(m, rest, x);
        assert((2 * m) / 2 == m);
        assert(bit_weight(2 * m, pts, x) == 1 * w);
        assert(ph[m as int] == cs[2 * m as int]);
        let a = ipoly(cs[2 * m as int], x);
        assert(a * (1 * w) == a * w) by (nonlinear_arith);
    }
}

/// The rounds on coefficients leave one polynomial, the weighted sum of the
/// polynomials: `sum_i p_i prod_{bit k of i set} l_k`.
pub proof fn law_combine_coeffs(cs: Seq<Seq<int>>, pts: Seq<(nat, nat)>, x: int)
    requires
        1 <= cs.len() <= pow2(pts.len()),
    ensures
        combine_coeffs(cs, pts).len() == 1,
        ipoly(combine_coeffs(cs, pts)[0], x) == weighted_sum(cs, pts, x, cs.len()),
    decreases pts.len(),
{
    if pts.len() == 0 {
        vstd::arithmetic::power2::lemma2_to64();
        assert(ipoly(cs[0], x) * 1 == ipoly(cs[0], x)) by (nonlinear_arith);
        assert(weighted_sum(cs, pts, x, 0) == 0);
    } else {
        let ph = phase_coeffs(cs, pts[0].0, pts[0].1);
        vstd::arithmetic::power2::lemma_pow2_unfold(pts.len());
        assert(ph.len() <= pow2(pts.drop_first().len()));
        lemma_weighted_phase(cs, pts, x);
        law_combine_coeffs(ph, pts.drop_first(), x);
    }
}

/// `ps` holds the values in `0, 1, ...` of the integer polynomials `cs`,
/// each of degree below its number of values, a later one with no fewer
/// values than an earlier one.
pub open spec fn vals_of_polys(ps: Seq<Seq<nat>>, cs: Seq<Seq<int>>) -> bool {
    &&& are_vals_of(ps, cs)
    &&& forall|i: int, k: int| 0 <= i <= k < ps.len() ==> #[trigger] ps[i].len() <= #[trigger] ps[k].len()
}

/// `ps` holds the values in `0, 1, ...` of the integer polynomials `cs`,
/// each of degree below its number of values.
pub open spec fn are_vals_of(ps: Seq<Seq<nat>>, cs: Seq<Seq<int>>) -> bool {
    &&& ps.len() == cs.len()
    &&& forall|i: int| 0 <= i < ps.len() ==> (#[trigger] cs[i]).len() <= ps[i].len() && ps[i] == poly_vals(cs[i], ps[i].len())
}

/// A round on values is the round on coefficients, and adds one value.
proof fn lemma_phase_vals(ps: Seq<Seq<nat>>, cs: Seq<Seq<int>>, p0: nat, p1: nat, bound: nat)
    requires
        vals_of_polys(ps, cs),
        bound <= 64,
        forall|i: int| 0 <= i < ps.len() ==> #[trigger] ps[i].len() <= bound,
    ensures
        vals_of_polys(phase_polys(ps, p0, p1), phase_coeffs(cs, p0, p1)),
        forall|j: int| 0 <= j < phase_polys(ps, p0, p1).len() ==> #[trigger] phase_polys(ps, p0, p1)[j].len() <= bound + 1,
{
    let ph = phase_polys(ps, p0, p1);
    let pc = phase_coeffs(cs, p0, p1);
    let ln = |j: int| if 2 * j + 1 < ps.len() { ps[2 * j + 1].len() + 1 } else { ps[2 * j].len() + 1 };
    assert forall|j: int| 0 <= j < ph.len() implies pc[j].len() <= (#[trigger] ph[j]).len() && ph[j] == poly_vals(
        pc[j],
        ph[j].len(),
    ) && ph[j].len() == ln(j) by {
        if 2 * j + 1 < ps.len() {
            let p = cs[2 * j];
            let q = cs[2 * j + 1];
            let a = ps[2 * j].len();
            let b = ps[2 * j + 1].len();
            law_pair_merge(p, q, a, b, p0, p1);
            let r = coeff_add(p, coeff_line_mul(q, p0, p1));
            lemma_ipoly_line_mul(q, p0, p1, 0);
            assert(ph[j].len() == b + 1);
            assert forall|i: int| 0 <= i < b + 1 implies #[trigger] ph[j][i] == poly_vals(r, b + 1)[i] by {
                let (pv, qv, lv) = (ipoly(p, i), ipoly(q, i), line_at(p0, p1, i));
                lemma_ipoly_line_mul(q, p0, p1, i);
                lemma_ipoly_add(p, coeff_line_mul(q, p0, p1), i);
                crate::field::lemma_fmul_fm(qv, lv);
                crate::field::lemma_fadd_fm(pv, qv * lv);
                assert(qv * lv == lv * qv) by (nonlinear_arith);
            }
            assert(ph[j] =~= poly_vals(r, b + 1));
        } else {
            let a = ps[2 * j].len();
            law_raise(cs[2 * j], a, a + 1);
        }
    }
    assert forall|j: int, k: int| 0 <= j <= k < ph.len() implies #[trigger] ph[j].len() <= #[trigger] ph[k].len() by {
        assert(ph[j].len() == ln(j) && ph[k].len() == ln(k));
        if j < k {
            let ij = if 2 * j + 1 < ps.len() { 2 * j + 1 } else { 2 * j };
            let ik = if 2 * k + 1 < ps.len() { 2 * k + 1 } else { 2 * k };
            assert(ps[ij].len() <= ps[ik].len());
        }
    }
    assert forall|j: int| 0 <= j < ph.len() implies #[trigger] ph[j].len() <= bound + 1 by {
        assert(ph[j].len() == ln(j));
    }
}

/// The rounds on values are the rounds on coefficients.
proof fn lemma_combine_vals(ps: Seq<Seq<nat>>, cs: Seq<Seq<int>>, pts: Seq<(nat, nat)>, bound: nat)
    requires
        vals_of_polys(ps, cs),
        bound + pts.len() <= 65,
        forall|i: int| 0 <= i < ps.len() ==> #[trigger] ps[i].len() <= bound,
    ensures
        vals_of_polys(combine_polys(ps, pts), combine_coeffs(cs, pts)),
    decreases pts.len(),
{
    if pts.len() > 0 {
        lemma_phase_vals(ps, cs, pts[0].0, pts[0].1, bound);
        lemma_combine_vals(
            phase_polys(ps, pts[0].0, pts[0].1),
            phase_coeffs(cs, pts[0].0, pts[0].1),
            pts.drop_first(),
            bound + 1,
        );
    }
}

/// Combination: from the values of polynomials `p_i`, each of degree below
/// its number of values (later ones with no fewer), the rounds with the
/// lines `l_k` through `(0, pts[k].0)` and `(1, pts[k].1)` leave one
/// polynomial, whose values are those of `sum_i p_i prod_{bit k of i set} l_k`.
pub proof fn law_combine_polys(ps: Seq<Seq<nat>>, cs: Seq<Seq<int>>, pts: Seq<(nat, nat)>, bound: nat)
    requires
        vals_of_polys(ps, cs),
        1 <= ps.len() <= pow2(pts.len()),
        bound + pts.len() <= 65,
        forall|i: int| 0 <= i < ps.len() ==> #[trigger] ps[i].len() <= bound,
    ensures
        combine_polys(ps, pts).len() == 1,
        forall|t: int| 0 <= t < combine_polys(ps, pts)[0].len() ==> #[trigger] combine_polys(ps, pts)[0][t] == fm(
            weighted_sum(cs, pts, t, cs.len()),
        ),
{
    lemma_combine_vals(ps, cs, pts, bound);
    let cc = combine_coeffs(cs, pts);
    law_combine_coeffs(cs, pts, 0);
    assert forall|t: int| 0 <= t < combine_polys(ps, pts)[0].len() implies #[trigger] combine_polys(ps, pts)[0][t] == fm(
        weighted_sum(cs, pts, t, cs.len()),
    ) by {
        law_combine_coeffs(cs, pts, t);
        assert(cc.len() == 1);
    }
}

/// The `a` polynomials of degree `d` stored from offset `off`.
pub open spec fn group_polys(e: Seq<nat>, off: nat, d: nat, a: nat) -> Seq<Seq<nat>> {
    Seq::new(a, |j: int| e.subrange(off + j * (d + 1), off + (j + 1) * (d + 1)))
}

/// The polynomials that values laid out by `l` hold, in order.
pub open spec fn split_polys(e: Seq<nat>, l: Seq<EvalLayout>) -> Seq<Seq<nat>>
    decreases l.len(),
{
    if l.len() == 0 {
        Seq::empty()
    } else {
        split_polys(e, l.drop_last()) + group_polys(
            e,
            layout_size(l.drop_last()),
            l.last().deg as nat,
            l.last().amount as nat,
        )
    }
}

/// The challenge pairs as values.
pub open spec fn pt_pairs(point: Seq<[Fe; 2]>) -> Seq<(nat, nat)> {
    Seq::new(point.len(), |i: int| (point[i][0].val(), point[i][1].val()))
}

/// The buffers of the rounds are large enough: the first round writes a
/// buffer of the size of the second layout, and later rounds alternate
/// between the two buffers.
pub open spec fn buffers_fit(ls: Seq<Seq<EvalLayout>>, rounds: nat) -> bool {
    &&& layout_size(ls[1]) <= usize::MAX
    &&& forall|i: int|
        1 <= i < rounds ==> #[trigger] layout_size(ls[i + 1]) <= if i % 2 == 1 {
            layout_size(ls[0])
        } else {
            layout_size(ls[1])
        }
}

/// The carry entering a group is the parity of the polynomials before it.
pub proof fn lemma_carry_parity(l: Seq<EvalLayout>, k: int)
    requires
        0 <= k <= l.len(),
    ensures
        carry_into(l, k) == layout_polys(l.take(k)) % 2,
    decreases k,
{
    if k == 0 {
        assert(l.take(0) =~= Seq::<EvalLayout>::empty());
    } else {
        lemma_carry_parity(l, k - 1);
        lemma_layout_size_prefix(l, k - 1);
    }
}

/// Before a group other than the last, the next layout holds half the
/// polynomials, rounded down.
proof fn lemma_next_prefix_polys(l: Seq<EvalLayout>, k: int)
    requires
        0 <= k < l.len(),
    ensures
        layout_polys(next_layout(l).take(k)) == layout_polys(l.take(k)) / 2,
{
    lemma_halves_prefix(l, k);
    lemma_carry_parity(l, k);
}

proof fn lemma_split_len(e: Seq<nat>, l: Seq<EvalLayout>)
    ensures
        split_polys(e, l).len() == layout_polys(l),
    decreases l.len(),
{
    if l.len() > 0 {
        lemma_split_len(e, l.drop_last());
    }
}

/// Polynomial `j` of group `q` sits at offset `j * (d + 1)` of the group.
proof fn lemma_split_index(e: Seq<nat>, l: Seq<EvalLayout>, q: int, j: int)
    requires
        0 <= q < l.len(),
        0 <= j < l[q].amount,
    ensures
        layout_polys(l.take(q)) + j < layout_polys(l),
        split_polys(e, l)[layout_polys(l.take(q)) + j] == e.subrange(
            layout_size(l.take(q)) + j * (l[q].deg + 1),
            layout_size(l.take(q)) + (j + 1) * (l[q].deg + 1),
        ),
    decreases l.len(),
{
    lemma_split_len(e, l.drop_last());
    if q == l.len() - 1 {
        assert(l.take(q) =~= l.drop_last());
    } else {
        assert(l.drop_last().take(q) =~= l.take(q));
        lemma_split_index(e, l.drop_last(), q, j);
        lemma_layout_size_mono(l.drop_last(), q + 1);
        lemma_layout_size_prefix(l.drop_last(), q);
    }
}

/// The polynomials of a layout depend only on the values it covers.
proof fn lemma_split_prefix(e1: Seq<nat>, e2: Seq<nat>, l: Seq<EvalLayout>)
    requires
        e1.len() >= layout_size(l),
        e2.len() >= layout_size(l),
        e1.take(layout_size(l) as int) == e2.take(layout_size(l) as int),
    ensures
        split_polys(e1, l) == split_polys(e2, l),
    decreases l.len(),
{
    if l.len() > 0 {
        let p = l.drop_last();
        let off = layout_size(p);
        let d = l.last().deg as nat;
        let a = l.last().amount as nat;
        assert(e1.take(off as int) =~= e1.take(layout_size(l) as int).take(off as int));
        assert(e2.take(off as int) =~= e2.take(layout_size(l) as int).take(off as int));
        lemma_split_prefix(e1, e2, p);
        assert(layout_size(l) == off + (d + 1) * a);
        assert((d + 1) * a == a * (d + 1)) by (nonlinear_arith);
        assert forall|j: int| 0 <= j < a implies #[trigger] group_polys(e1, off, d, a)[j] =~= group_polys(e2, off, d, a)[j] by {
            let lo = off + j * (d + 1);
            let hi = off + (j + 1) * (d + 1);
            assert((j + 1) * (d + 1) <= a * (d + 1)) by (nonlinear_arith)
                requires
                    0 <= j < a,
            ;
            assert(j * (d + 1) >= 0) by (nonlinear_arith)
                requires
                    0 <= j,
            ;
            assert(hi == lo + d + 1) by (nonlinear_arith)
                requires
                    lo == off + j * (d + 1),
                    hi == off + (j + 1) * (d + 1),
            ;
            assert forall|t: int| 0 <= t < d + 1 implies #[trigger] e1.subrange(lo, hi)[t] == e2.subrange(lo, hi)[t] by {
                assert(e1.take(layout_size(l) as int)[lo + t] == e1[lo + t]);
                assert(e2.take(layout_size(l) as int)[lo + t] == e2[lo + t]);
            }
        }
        assert(group_polys(e1, off, d, a) =~= group_polys(e2, off, d, a));
    }
}

/// One more point of the line.
pub proof fn lemma_line_step_pub(p0: nat, p1: nat, k: int)
    requires
        k >= 1,
    ensures
        fadd(fm(p0 + (k - 1) * (p1 - p0)), fsub(p1, p0)) == fm(p0 + k * (p1 - p0)),
{
    lemma_line_step(p0, p1, k);
}

proof fn lemma_line_step(p0: nat, p1: nat, k: int)
    requires
        k >= 1,
    ensures
        fadd(fm(p0 + (k - 1) * (p1 - p0)), fsub(p1, p0)) == fm(p0 + k * (p1 - p0)),
{
    lemma_fadd_fm(p0 + (k - 1) * (p1 - p0), p1 - p0);
    assert(p0 + (k - 1) * (p1 - p0) + (p1 - p0) == p0 + k * (p1 - p0)) by (nonlinear_arith);
}

/// Piece `w` of length `len` of the values from offset `off`.
pub open spec fn chunk(e: Seq<nat>, off: int, len: int, w: int) -> Seq<nat> {
    e.subrange(off + w * len, off + (w + 1) * len)
}

/// Rows `0..30` of Pascal's triangle.
pub open spec fn binoms_ok(b: Seq<Vec<u64>>) -> bool {
    &&& b.len() == 30
    &&& forall|i: int| 0 <= i < 30 ==> (#[trigger] b[i])@ == binom_row(i as nat)
}

proof fn lemma_mul_step(w: int, count: int, len: int)
    requires
        0 <= w < count,
        len >= 0,
    ensures
        0 <= w * len,
        (w + 1) * len == w * len + len,
        (w + 1) * len <= count * len,
{
    assert(0 <= w * len) by (nonlinear_arith)
        requires
            0 <= w,
            len >= 0,
    ;
    assert((w + 1) * len == w * len + len) by (nonlinear_arith);
    assert((w + 1) * len <= count * len) by (nonlinear_arith)
        requires
            w + 1 <= count,
            len >= 0,
    ;
}

fn pascal() -> (r: Vec<Vec<u64>>)
    ensures
        binoms_ok(r@),
{
    let r = compute_binomial_coefficients(30);
    proof {
        assert forall|i: int| 0 <= i < 30 implies (#[trigger] r@[i])@ == binom_row(i as nat) by {
            assert forall|j: int| 0 <= j <= i implies r@[i]@[j] == #[trigger] binom_row(i as nat)[j] by {
                assert(r@[i]@[j] == binom(i as nat, j as nat));
            }
            assert(r@[i]@ =~= binom_row(i as nat));
        }
    }
    r
}

/// `n` zeros.
fn zeros(n: usize) -> (r: Vec<Fe>)
    ensures
        r@.len() == n,
{
    let mut v: Vec<Fe> = Vec::new();
    let mut k: usize = 0;
    while k < n
        invariant
            k <= n,
            v@.len() == k,
        decreases n - k,
    {
        v.push(Fe::zero());
        k = k + 1;
    }
    v
}

/// Extends `p` point by point until it holds `n` values.
fn raise_to(p: &mut Vec<Fe>, n: usize, binoms: &Vec<Vec<u64>>)
    requires
        old(p)@.len() <= n <= 30,
        binoms_ok(binoms@),
    ensures
        vals(final(p)@) == raise(vals(old(p)@), n as nat),
        final(p)@.len() == n,
{
    while p.len() < n
        invariant
            p@.len() <= n <= 30,
            binoms_ok(binoms@),
            raise(vals(p@), n as nat) == raise(vals(old(p)@), n as nat),
        decreases n - p@.len(),
    {
        let k = p.len();
        let e = extend(p.as_slice(), binoms[k].as_slice());
        let ghost before = vals(p@);
        p.push(e);
        proof {
            assert(vals(p@) =~= before.push(e.val()));
        }
    }
}

/// Writes `t` into `tgt` from offset `off`.
fn write_at(tgt: &mut Vec<Fe>, off: usize, t: &Vec<Fe>)
    requires
        off + t@.len() <= old(tgt)@.len(),
    ensures
        final(tgt)@.len() == old(tgt)@.len(),
        final(tgt)@.subrange(off as int, off + t@.len()) == t@,
        forall|k: int| 0 <= k < off ==> #[trigger] final(tgt)@[k] == old(tgt)@[k],
        forall|k: int| off + t@.len() <= k < old(tgt)@.len() ==> #[trigger] final(tgt)@[k] == old(tgt)@[k],
{
    let tlen = tgt.len();
    let mut i: usize = 0;
    while i < t.len()
        invariant
            tlen == old(tgt)@.len(),
            off + t@.len() <= old(tgt)@.len(),
            tgt@.len() == old(tgt)@.len(),
            i <= t@.len(),
            forall|k: int| 0 <= k < i ==> #[trigger] tgt@[off + k] == t@[k],
            forall|k: int| 0 <= k < off ==> #[trigger] tgt@[k] == old(tgt)@[k],
            forall|k: int| off + i <= k < old(tgt)@.len() ==> #[trigger] tgt@[k] == old(tgt)@[k],
        decreases t@.len() - i,
    {
        tgt.set(off + i, t[i]);
        i = i + 1;
    }
    proof {
        assert forall|k: int| 0 <= k < t@.len() implies #[trigger] tgt@.subrange(off as int, off + t@.len())[k] == t@[k] by {
            assert(tgt@[off + k] == t@[k]);
        }
        assert(tgt@.subrange(off as int, off + t@.len()) =~= t@);
    }
}

/// Merges `count` consecutive pairs of polynomials of `sd + 1` values each,
/// read from `s_off`, into `count` polynomials of `sd + 2` values written
/// from `t_off`.
fn merge_pairs(
    src: &Vec<Fe>,
    s_off: usize,
    tgt: &mut Vec<Fe>,
    t_off: usize,
    count: usize,
    sd: usize,
    pt_vals: &Vec<Fe>,
    binom: &Vec<u64>,
)
    requires
        s_off + count * (2 * (sd + 1)) <= src@.len(),
        t_off + count * (sd + 2) <= old(tgt)@.len(),
        pt_vals@.len() == sd + 2,
        binom@.len() == sd + 2,
    ensures
        final(tgt)@.len() == old(tgt)@.len(),
        forall|k: int| 0 <= k < t_off ==> #[trigger] final(tgt)@[k] == old(tgt)@[k],
        forall|w: int|
            0 <= w < count ==> vals(final(tgt)@).subrange(t_off + w * (sd + 2), t_off + (w + 1) * (sd + 2))
                == #[trigger] merge_vals(
                chunk(vals(src@), s_off as int, sd + 1, 2 * w),
                chunk(vals(src@), s_off as int, sd + 1, 2 * w + 1),
                vals(pt_vals@),
                binom@,
            ),
{
    let slen = src.len();
    let tlen = tgt.len();
    let mut m: usize = 0;
    let mut so = s_off;
    let mut to = t_off;
    while m < count
        invariant
            slen == src@.len(),
            tlen == old(tgt)@.len(),
            s_off + count * (2 * (sd + 1)) <= src@.len(),
            t_off + count * (sd + 2) <= old(tgt)@.len(),
            pt_vals@.len() == sd + 2,
            binom@.len() == sd + 2,
            m <= count,
            so == s_off + m * (2 * (sd + 1)),
            to == t_off + m * (sd + 2),
            tgt@.len() == old(tgt)@.len(),
            forall|k: int| 0 <= k < t_off ==> #[trigger] tgt@[k] == old(tgt)@[k],
            forall|w: int|
                0 <= w < m ==> vals(tgt@).subrange(t_off + w * (sd + 2), t_off + (w + 1) * (sd + 2))
                    == #[trigger] merge_vals(
                    chunk(vals(src@), s_off as int, sd + 1, 2 * w),
                    chunk(vals(src@), s_off as int, sd + 1, 2 * w + 1),
                    vals(pt_vals@),
                    binom@,
                ),
        decreases count - m,
    {
        proof {
            lemma_mul_step(m as int, count as int, 2 * (sd + 1));
            lemma_mul_step(m as int, count as int, (sd + 2) as int);
            assert(2 * m * (sd + 1) == m * (2 * (sd + 1))) by (nonlinear_arith);
            assert((2 * m + 1) * (sd + 1) == m * (2 * (sd + 1)) + (sd + 1)) by (nonlinear_arith);
            assert((2 * m + 2) * (sd + 1) == m * (2 * (sd + 1)) + 2 * (sd + 1)) by (nonlinear_arith);
        }
        let a = vstd::slice::slice_subrange(src.as_slice(), so, so + sd + 1);
        let b = vstd::slice::slice_subrange(src.as_slice(), so + sd + 1, so + 2 * (sd + 1));
        let mut t = zeros(sd + 2);
        merge(a, b, t.as_mut_slice(), pt_vals.as_slice(), binom.as_slice());
        assert(vals(t@).len() == sd + 2);
        assert(t@.len() == sd + 2);
        let ghost before = tgt@;
        write_at(tgt, to, &t);
        proof {
            assert(vals(a@) =~= chunk(vals(src@), s_off as int, sd + 1, 2 * m));
            assert(vals(b@) =~= chunk(vals(src@), s_off as int, sd + 1, 2 * m + 1));
            assert forall|w: int|
                0 <= w < m + 1 implies vals(tgt@).subrange(t_off + w * (sd + 2), t_off + (w + 1) * (sd + 2))
                    == #[trigger] merge_vals(
                    chunk(vals(src@), s_off as int, sd + 1, 2 * w),
                    chunk(vals(src@), s_off as int, sd + 1, 2 * w + 1),
                    vals(pt_vals@),
                    binom@,
                ) by {
                lemma_mul_step(w, m + 1, (sd + 2) as int);
                if w < m {
                    lemma_mul_step(w, m as int, (sd + 2) as int);
                    assert(vals(tgt@).subrange(t_off + w * (sd + 2), t_off + (w + 1) * (sd + 2))
                        =~= vals(before).subrange(t_off + w * (sd + 2), t_off + (w + 1) * (sd + 2)));
                } else {
                    assert(vals(tgt@).subrange(t_off + w * (sd + 2), t_off + (w + 1) * (sd + 2)) =~= vals(t@));
                }
            }
        }
        so = so + 2 * (sd + 1);
        to = to + (sd + 2);
        m = m + 1;
    }
}

/// Number of polynomials a group of `sa` with carry `c` turns into; the last
/// group keeps a final odd one.
pub open spec fn group_count(sa: nat, c: nat, last: bool) -> nat {
    ((sa + c) / 2 + if last { (sa + c) % 2 } else { 0 }) as nat
}

/// What a group writes, from the values `e` of the group at `s_off`: the carry
/// `cv` raised and merged with the first polynomial, then consecutive pairs,
/// then, in the last group, an odd polynomial left extended by one point.
pub open spec fn group_out(
    e: Seq<nat>,
    s_off: int,
    sd: nat,
    sa: nat,
    c: nat,
    cv: Seq<nat>,
    last: bool,
    pt: Seq<nat>,
) -> Seq<Seq<nat>> {
    Seq::new(
        group_count(sa, c, last),
        |w: int|
            if w < c {
                merge_vals(raise(cv, sd + 1), chunk(e, s_off, (sd + 1) as int, 0), pt, binom_row(sd + 1))
            } else if 2 * w - c + 1 < sa {
                merge_vals(chunk(e, s_off, (sd + 1) as int, 2 * w - c), chunk(e, s_off, (sd + 1) as int, 2 * w - c + 1), pt, binom_row(sd + 1))
            } else {
                raise(chunk(e, s_off, (sd + 1) as int, sa - 1), sd + 2)
            },
    )
}

/// Processes one nonempty group of `sa` polynomials of `sd + 1` values from
/// `s_off`, with the carry `carry_poly` when `carry_flag`, writing from
/// `t_off`. Returns the offsets after the group and whether a carry is left,
/// which is then in `carry_poly`.
fn merge_group(
    src: &Vec<Fe>,
    tgt: &mut Vec<Fe>,
    s_off: usize,
    t_off: usize,
    sd: usize,
    sa: usize,
    carry_poly: &mut Vec<Fe>,
    carry_flag: bool,
    last: bool,
    pt_vals: &Vec<Fe>,
    binoms: &Vec<Vec<u64>>,
) -> (r: (usize, usize, bool))
    requires
        sa > 0,
        sd + 2 <= 30,
        pt_vals@.len() == sd + 2,
        binoms_ok(binoms@),
        s_off + sa * (sd + 1) <= src@.len(),
        t_off + group_count(sa as nat, if carry_flag { 1nat } else { 0nat }, last) * (sd + 2) <= old(tgt)@.len(),
        carry_flag ==> old(carry_poly)@.len() <= sd + 1,
    ensures
        r.0 == s_off + sa * (sd + 1),
        r.1 == t_off + group_count(sa as nat, if carry_flag { 1nat } else { 0nat }, last) * (sd + 2),
        r.2 == ((sa - (if carry_flag { 1int } else { 0int })) % 2 == 1),
        r.2 ==> vals(final(carry_poly)@) == chunk(vals(src@), s_off as int, sd + 1, sa - 1),
        r.2 ==> final(carry_poly)@.len() == sd + 1,
        final(tgt)@.len() == old(tgt)@.len(),
        forall|k: int| 0 <= k < t_off ==> #[trigger] final(tgt)@[k] == old(tgt)@[k],
        group_polys(vals(final(tgt)@), t_off as nat, (sd + 1) as nat, group_count(sa as nat, if carry_flag { 1nat } else { 0nat }, last))
            == group_out(vals(src@), s_off as int, sd as nat, sa as nat, if carry_flag { 1nat } else { 0nat }, vals(old(carry_poly)@), last, vals(pt_vals@)),
{
    let ghost e = vals(src@);
    let ghost c: nat = if carry_flag { 1nat } else { 0nat };
    let ghost ta = group_count(sa as nat, c, last);
    let ghost cv = vals(carry_poly@);
    let ghost pt = vals(pt_vals@);
    let ghost go = group_out(e, s_off as int, sd as nat, sa as nat, c, cv, last, pt);
    let ghost tgt0 = vals(tgt@);
    let slen = src.len();
    let tlen = tgt.len();
    proof {
        assert(binoms@[sd + 1]@ == binom_row((sd + 1) as nat));
        assert(c + (sa - c) / 2 <= ta);
        lemma_mul_step(0, sa as int, (sd + 1) as int);
    }
    let mut so = s_off;
    let mut to = t_off;
    let mut k: usize = 0;
    if carry_flag {
        raise_to(carry_poly, sd + 1, binoms);
        let y = vstd::slice::slice_subrange(src.as_slice(), so, so + sd + 1);
        let mut t = zeros(sd + 2);
        merge(carry_poly.as_slice(), y, t.as_mut_slice(), pt_vals.as_slice(), binoms[sd + 1].as_slice());
        proof {
            assert(ta >= 1);
            lemma_mul_step(0, ta as int, (sd + 2) as int);
            assert(vals(t@).len() == sd + 2);
        }
        write_at(tgt, to, &t);
        proof {
            assert(vals(y@) =~= chunk(e, s_off as int, sd + 1, 0));
            assert(vals(t@).len() == sd + 2);
            assert(vals(tgt@).subrange(t_off as int, t_off + sd + 2) =~= go[0]);
        }
        so = so + sd + 1;
        to = to + sd + 2;
        k = 1;
    }
    let ghost tgt1 = vals(tgt@);
    proof {
        assert(k == c);
        assert forall|w: int| 0 <= w < k implies #[trigger] tgt1.subrange(t_off + w * (sd + 2), t_off + (w + 1) * (sd + 2)) == go[w] by {
            assert(w == 0);
        }
    }
    let rem = sa - k;
    let count = rem / 2;
    proof {
        assert(k * (sd + 1) + count * (2 * (sd + 1)) <= sa * (sd + 1)) by (nonlinear_arith)
            requires
                k + 2 * count <= sa,
        ;
        assert(k * (sd + 2) + count * (sd + 2) <= ta * (sd + 2)) by (nonlinear_arith)
            requires
                k + count <= ta,
        ;
        assert(so == s_off + k * (sd + 1));
        assert(to == t_off + k * (sd + 2));
    }
    merge_pairs(src, so, tgt, to, count, sd, pt_vals, &binoms[sd + 1]);
    let ghost tgt2 = vals(tgt@);
    proof {
        assert forall|w: int| 0 <= w < k + count implies #[trigger] tgt2.subrange(t_off + w * (sd + 2), t_off + (w + 1) * (sd + 2))
            == go[w] by {
            if w < k {
                assert(tgt2.subrange(t_off as int, t_off + (sd + 2)) =~= tgt1.subrange(t_off as int, t_off + (sd + 2)));
            } else {
                let v = w - k;
                assert(t_off + w * (sd + 2) == to + v * (sd + 2)) by (nonlinear_arith)
                    requires
                        to == t_off + k * (sd + 2),
                        w == v + k,
                ;
                assert(t_off + (w + 1) * (sd + 2) == to + (v + 1) * (sd + 2)) by (nonlinear_arith)
                    requires
                        to == t_off + k * (sd + 2),
                        w == v + k,
                ;
                assert(chunk(e, so as int, sd + 1, 2 * v) =~= chunk(e, s_off as int, sd + 1, 2 * w - c)) by {
                    assert(so + (2 * v) * (sd + 1) == s_off + (2 * w - c) * (sd + 1)) by (nonlinear_arith)
                        requires
                            so == s_off + k * (sd + 1),
                            w == v + k,
                            k == c,
                    ;
                    assert(so + (2 * v + 1) * (sd + 1) == s_off + (2 * w - c + 1) * (sd + 1)) by (nonlinear_arith)
                        requires
                            so == s_off + k * (sd + 1),
                            w == v + k,
                            k == c,
                    ;
                }
                assert(chunk(e, so as int, sd + 1, 2 * v + 1) =~= chunk(e, s_off as int, sd + 1, 2 * w - c + 1)) by {
                    assert(so + (2 * v + 1) * (sd + 1) == s_off + (2 * w - c + 1) * (sd + 1)) by (nonlinear_arith)
                        requires
                            so == s_off + k * (sd + 1),
                            w == v + k,
                            k == c,
                    ;
                    assert(so + (2 * v + 2) * (sd + 1) == s_off + (2 * w - c + 2) * (sd + 1)) by (nonlinear_arith)
                        requires
                            so == s_off + k * (sd + 1),
                            w == v + k,
                            k == c,
                    ;
                }
            }
        }
    }
    so = so + count * (2 * (sd + 1));
    to = to + count * (sd + 2);
    let mut new_carry = false;
    if rem % 2 == 1 {
        proof {
            assert(so == s_off + (sa - 1) * (sd + 1)) by (nonlinear_arith)
                requires
                    so == s_off + k * (sd + 1) + count * (2 * (sd + 1)),
                    sa == k + 2 * count + 1,
            ;
            lemma_mul_step(sa - 1, sa as int, (sd + 1) as int);
        }
        let x = vstd::slice::slice_subrange(src.as_slice(), so, so + sd + 1);
        proof {
            assert(vals(x@) =~= chunk(e, s_off as int, sd + 1, sa - 1));
        }
        *carry_poly = vstd::slice::slice_to_vec(x);
        if last {
            let mut t = vstd::slice::slice_to_vec(x);
            raise_to(&mut t, sd + 2, binoms);
            proof {
                assert(ta == k + count + 1);
                lemma_mul_step((k + count) as int, ta as int, (sd + 2) as int);
                assert(to == t_off + (k + count) * (sd + 2)) by (nonlinear_arith)
                    requires
                        to == t_off + k * (sd + 2) + count * (sd + 2),
                ;
            }
            write_at(tgt, to, &t);
            proof {
                assert forall|w: int| 0 <= w < k + count + 1 implies #[trigger] vals(tgt@).subrange(
                    t_off + w * (sd + 2),
                    t_off + (w + 1) * (sd + 2),
                ) == go[w] by {
                    lemma_mul_step(w, (k + count + 1) as int, (sd + 2) as int);
                    if w < k + count {
                        lemma_mul_step(w, (k + count) as int, (sd + 2) as int);
                        assert(vals(tgt@).subrange(t_off + w * (sd + 2), t_off + (w + 1) * (sd + 2))
                            =~= tgt2.subrange(t_off + w * (sd + 2), t_off + (w + 1) * (sd + 2)));
                    } else {
                        assert(vals(tgt@).subrange(t_off + w * (sd + 2), t_off + (w + 1) * (sd + 2)) =~= vals(t@));
                    }
                }
            }
            to = to + sd + 2;
        }
        so = so + sd + 1;
        new_carry = true;
    }
    proof {
        let tgt3 = vals(tgt@);
        assert(forall|w: int| 0 <= w < ta ==> #[trigger] tgt3.subrange(t_off + w * (sd + 2), t_off + (w + 1) * (sd + 2)) == go[w]);
        assert(group_polys(tgt3, t_off as nat, (sd + 1) as nat, ta) =~= go);
        assert(so == s_off + sa * (sd + 1)) by (nonlinear_arith)
            requires
                so == s_off + k * (sd + 1) + count * (2 * (sd + 1)) + (rem % 2) * (sd + 1),
                rem == sa - k,
                count == rem / 2,
        ;
        assert(to == t_off + ta * (sd + 2)) by (nonlinear_arith)
            requires
                to == t_off + k * (sd + 2) + count * (sd + 2) + (if last && rem % 2 == 1 { sd + 2 } else { 0 }),
                ta == k + count + (if last && rem % 2 == 1 { 1nat } else { 0nat }),
        ;
    }
    (so, to, new_carry)
}

/// What a group writes is the run of merged polynomials of the round that
/// it is responsible for.
proof fn lemma_group_matches(e: Seq<nat>, sl: Seq<EvalLayout>, q: int, p0: nat, p1: nat, cv: Seq<nat>)
    requires
        0 <= q < sl.len(),
        sl[q].amount > 0,
        e.len() >= layout_size(sl),
        layout_polys(sl.take(q)) % 2 == 1 ==> cv == split_polys(e, sl)[layout_polys(sl.take(q)) - 1],
    ensures
        ({
            let pq = layout_polys(sl.take(q));
            let c = (pq % 2) as nat;
            let jq = pq / 2;
            let sa = sl[q].amount as nat;
            let last = q == sl.len() - 1;
            let ta = group_count(sa, c, last);
            &&& jq + ta <= phase_polys(split_polys(e, sl), p0, p1).len()
            &&& group_out(e, layout_size(sl.take(q)) as int, sl[q].deg as nat, sa, c, cv, last, line_vals(p0, p1, (sl[q].deg + 2) as nat))
                == phase_polys(split_polys(e, sl), p0, p1).subrange(jq as int, (jq + ta) as int)
        }),
{
    let ps = split_polys(e, sl);
    let out = phase_polys(ps, p0, p1);
    let pq = layout_polys(sl.take(q));
    let c = (pq % 2) as nat;
    let jq = pq / 2;
    let sa = sl[q].amount as nat;
    let sd = sl[q].deg as nat;
    let last = q == sl.len() - 1;
    let ta = group_count(sa, c, last);
    let n = layout_polys(sl);
    let s0 = layout_size(sl.take(q)) as int;
    let pt = line_vals(p0, p1, sd + 2);
    lemma_split_len(e, sl);
    lemma_layout_size_prefix(sl, q);
    lemma_layout_size_mono(sl, q + 1);
    assert(pq + sa <= n);
    assert((sd + 1) * sa == sa * (sd + 1)) by (nonlinear_arith);
    if last {
        assert(sl.take(q + 1) =~= sl);
        assert(pq + sa == n);
    }
    assert(jq + ta <= out.len());
    let go = group_out(e, s0, sd, sa, c, cv, last, pt);
    assert forall|w: int| 0 <= w < ta implies #[trigger] go[w] == out.subrange(jq as int, (jq + ta) as int)[w] by {
        if w < c {
            lemma_split_index(e, sl, q, 0);
            lemma_mul_step(0, sa as int, (sd + 1) as int);
            assert(2 * jq + 1 == pq);
            assert(ps[pq as int].len() == sd + 1);
        } else if 2 * w - c + 1 < sa {
            lemma_split_index(e, sl, q, 2 * w - c);
            lemma_split_index(e, sl, q, 2 * w - c + 1);
            lemma_mul_step(2 * w - c, sa as int, (sd + 1) as int);
            lemma_mul_step(2 * w - c + 1, sa as int, (sd + 1) as int);
            assert(2 * (jq + w) == pq + 2 * w - c);
            assert(ps[pq + 2 * w - c].len() == sd + 1);
            assert(raise(ps[pq + 2 * w - c], sd + 1) == ps[pq + 2 * w - c]);
        } else {
            assert(last);
            assert(2 * w - c + 1 == sa);
            lemma_split_index(e, sl, q, sa - 1);
            lemma_mul_step(sa - 1, sa as int, (sd + 1) as int);
            assert(2 * (jq + w) == n - 1);
            assert(ps[n - 1].len() == sd + 1);
        }
    }
    assert(go =~= out.subrange(jq as int, (jq + ta) as int));
}

/// Extends the values of the line in `0, 1, ...` up to `n` values; `inc` is
/// the slope.
fn extend_line(pt_vals: &mut Vec<Fe>, n: usize, inc: &Fe, Ghost(p0v): Ghost<nat>, Ghost(p1v): Ghost<nat>)
    requires
        2 <= old(pt_vals)@.len() <= n <= 30,
        vals(old(pt_vals)@) == line_vals(p0v, p1v, old(pt_vals)@.len()),
        inc.val() == fsub(p1v, p0v),
    ensures
        final(pt_vals)@.len() == n,
        vals(final(pt_vals)@) == line_vals(p0v, p1v, n as nat),
{
    while pt_vals.len() < n
        invariant
            n <= 30,
            pt_vals@.len() >= 2,
            pt_vals@.len() <= n,
            vals(pt_vals@) == line_vals(p0v, p1v, pt_vals@.len()),
            inc.val() == fsub(p1v, p0v),
        decreases n - pt_vals@.len(),
    {
        let k = pt_vals.len();
        let last = pt_vals[k - 1];
        let ghost before = vals(pt_vals@);
        let nxt = last.add(inc);
        pt_vals.push(nxt);
        proof {
            assert(before[k - 1] == last.val());
            assert(last.val() == fm(p0v + (k - 1) * (p1v - p0v)));
            lemma_line_step(p0v, p1v, k as int);
            assert(vals(pt_vals@) =~= before.push(nxt.val()));
            assert(vals(pt_vals@) =~= line_vals(p0v, p1v, pt_vals@.len()));
        }
    }
}

/// One round: the polynomials laid out by `sl` in `src` are merged pairwise
/// with the line through `p0` and `p1` and written, laid out by `tl`, to
/// `tgt`. Values of `tgt` past the written layout stay as they were.
#[verifier::rlimit(100)]
fn merge_phase(
    src: &Vec<Fe>,
    tgt: &mut Vec<Fe>,
    sl: &Vec<EvalLayout>,
    tl: &Vec<EvalLayout>,
    p0: Fe,
    p1: Fe,
    binoms: &Vec<Vec<u64>>,
)
    requires
        sl@.len() > 0,
        tl@ == next_layout(sl@),
        layout_sorted(sl@),
        sl@[sl@.len() - 1].amount > 0,
        forall|k: int| 0 <= k < sl@.len() ==> (#[trigger] sl@[k]).deg + 2 <= 30,
        layout_size(sl@) <= src@.len(),
        layout_size(tl@) <= old(tgt)@.len(),
        binoms_ok(binoms@),
    ensures
        final(tgt)@.len() == old(tgt)@.len(),
        split_polys(vals(final(tgt)@), tl@) == phase_polys(split_polys(vals(src@), sl@), p0.val(), p1.val()),
{
    let ghost e = vals(src@);
    let ghost ps = split_polys(e, sl@);
    let ghost p0v = p0.val();
    let ghost p1v = p1.val();
    let ghost out = phase_polys(ps, p0v, p1v);
    let ghost n = layout_polys(sl@);
    let l = sl.len();
    let tlen = tgt.len();
    let inc = p1.sub(&p0);
    let mut pt_vals: Vec<Fe> = Vec::new();
    pt_vals.push(p0);
    pt_vals.push(p1);
    let mut carry_poly: Vec<Fe> = Vec::new();
    let mut carry_flag = false;
    let mut s_off: usize = 0;
    let mut t_off: usize = 0;
    let mut q: usize = 0;
    proof {
        lemma_split_len(e, sl@);
        p0.lemma_val_lt();
        p1.lemma_val_lt();
        lemma_fm_canonical(p0v as int);
        lemma_fm_canonical(p1v as int);
        assert(line_vals(p0v, p1v, 2)[0] == p0v);
        assert(line_vals(p0v, p1v, 2)[1] == fm(p1v as int));
        assert(vals(pt_vals@) =~= line_vals(p0v, p1v, 2));
        assert(sl@.take(0) =~= Seq::<EvalLayout>::empty());
        assert(tl@.take(0) =~= Seq::<EvalLayout>::empty());
        assert(out.take(0) =~= Seq::<Seq<nat>>::empty());
        assert(split_polys(vals(tgt@), tl@.take(0)) =~= Seq::<Seq<nat>>::empty());
    }
    while q < l
        invariant
            l == sl@.len(),
            l > 0,
            tl@ == next_layout(sl@),
            layout_sorted(sl@),
            sl@[l - 1].amount > 0,
            forall|k: int| 0 <= k < sl@.len() ==> (#[trigger] sl@[k]).deg + 2 <= 30,
            layout_size(sl@) <= src@.len(),
            tlen == tgt@.len(),
            tlen == old(tgt)@.len(),
            layout_size(tl@) <= tlen,
            binoms_ok(binoms@),
            e == vals(src@),
            ps == split_polys(e, sl@),
            ps.len() == n,
            n == layout_polys(sl@),
            out == phase_polys(ps, p0v, p1v),
            p0v == p0.val(),
            p1v == p1.val(),
            inc.val() == fsub(p1v, p0v),
            q <= l,
            s_off == layout_size(sl@.take(q as int)),
            t_off == layout_size(tl@.take(q as int)),
            carry_flag == (carry_into(sl@, q as int) == 1),
            carry_flag ==> layout_polys(sl@.take(q as int)) >= 1 && vals(carry_poly@) == ps[layout_polys(sl@.take(q as int)) - 1],
            carry_flag ==> carry_poly@.len() < sl@[q as int].deg + 1 || q == l,
            split_polys(vals(tgt@), tl@.take(q as int)) == out.take(layout_polys(tl@.take(q as int)) as int),
            pt_vals@.len() >= 2,
            vals(pt_vals@) == line_vals(p0v, p1v, pt_vals@.len()),
            q < l ==> pt_vals@.len() <= sl@[q as int].deg + 2,
        decreases l - q,
    {
        let ghost pq = layout_polys(sl@.take(q as int));
        let ghost jq = layout_polys(tl@.take(q as int));
        let ghost c: nat = carry_into(sl@, q as int);
        proof {
            lemma_layout_size_prefix(sl@, q as int);
            lemma_layout_size_prefix(tl@, q as int);
            lemma_layout_size_mono(sl@, q + 1);
            lemma_layout_size_mono(tl@, q + 1);
            lemma_carry_parity(sl@, q as int);
            lemma_carry_parity(sl@, q + 1);
            lemma_carry_bit(sl@, q as int);
            lemma_next_prefix_polys(sl@, q as int);
            assert(tl@.take(q + 1).drop_last() =~= tl@.take(q as int));
            if q + 1 < l {
                assert(sl@[q as int].deg < sl@[q + 1].deg);
            }
        }
        let sd = sl[q].deg;
        let sa = sl[q].amount;
        if sa == 0 {
            proof {
                assert(q < l - 1);
                assert(tl@[q as int].amount == 0);
                assert((sd + 1) * 0 == 0) by (nonlinear_arith);
                assert((sd + 2) * 0 == 0) by (nonlinear_arith);
                assert(group_polys(vals(tgt@), t_off as nat, tl@[q as int].deg as nat, 0) =~= Seq::<Seq<nat>>::empty());
                assert(split_polys(vals(tgt@), tl@.take(q + 1)) =~= split_polys(vals(tgt@), tl@.take(q as int)));
            }
            q = q + 1;
            continue;
        }
        extend_line(&mut pt_vals, sd + 2, &inc, Ghost(p0v), Ghost(p1v));
        let ghost cv = vals(carry_poly@);
        let ghost tgt0 = vals(tgt@);
        let is_last = q == l - 1;
        proof {
            lemma_group_matches(e, sl@, q as int, p0v, p1v, cv);
            assert(tl@[q as int].amount == group_count(sa as nat, c, is_last));
            assert(tl@[q as int].deg == sd + 1);
            assert((sd + 2) * tl@[q as int].amount == group_count(sa as nat, c, is_last) * (sd + 2)) by (nonlinear_arith)
                requires
                    tl@[q as int].amount == group_count(sa as nat, c, is_last),
            ;
            assert((sd + 1) * sa == sa * (sd + 1)) by (nonlinear_arith);
        }
        let r = merge_group(src, tgt, s_off, t_off, sd, sa, &mut carry_poly, carry_flag, is_last, &pt_vals, binoms);
        proof {
            let ta = group_count(sa as nat, c, is_last);
            let tgt1 = vals(tgt@);
            assert(tgt1.take(t_off as int) =~= tgt0.take(t_off as int));
            lemma_split_prefix(tgt1, tgt0, tl@.take(q as int));
            assert(group_polys(tgt1, t_off as nat, (sd + 1) as nat, ta) == out.subrange(jq as int, (jq + ta) as int));
            assert(jq + ta == layout_polys(tl@.take(q + 1)));
            assert(split_polys(tgt1, tl@.take(q + 1)) == split_polys(tgt1, tl@.take(q as int)) + group_polys(tgt1, t_off as nat, (sd + 1) as nat, ta));
            assert(out.take(jq as int) + out.subrange(jq as int, (jq + ta) as int) =~= out.take((jq + ta) as int));
            if r.2 {
                lemma_split_index(e, sl@, q as int, sa - 1);
                lemma_mul_step(sa - 1, sa as int, (sd + 1) as int);
                assert(vals(carry_poly@) == ps[pq + sa - 1]);
            }
        }
        s_off = r.0;
        t_off = r.1;
        carry_flag = r.2;
        q = q + 1;
    }
    proof {
        assert(tl@.take(l as int) =~= tl@);
        law_next_layout_halves(sl@);
        assert(out.take(out.len() as int) =~= out);
    }
}

/// The layouts of the rounds keep the length, sortedness and a nonempty last
/// group of the first, and raise every degree by one per round.
proof fn lemma_layouts_shape(l: Seq<EvalLayout>, rounds: nat, i: int)
    requires
        l.len() > 0,
        layout_sorted(l),
        l[l.len() - 1].amount > 0,
        forall|k: int| 0 <= k < l.len() ==> (#[trigger] l[k]).deg + rounds <= usize::MAX,
        0 <= i <= rounds,
    ensures
        layouts_from(l, rounds)[i].len() == l.len(),
        layout_sorted(layouts_from(l, rounds)[i]),
        layouts_from(l, rounds)[i][l.len() - 1].amount > 0,
        forall|k: int| 0 <= k < l.len() ==> (#[trigger] layouts_from(l, rounds)[i][k]).deg == l[k].deg + i,
    decreases i,
{
    lemma_layouts_from_len(l, rounds);
    if i > 0 {
        lemma_layouts_shape(l, rounds, i - 1);
        let prev = layouts_from(l, rounds)[i - 1];
        let cur = layouts_from(l, rounds)[i];
        assert(layouts_from(l, rounds)[(i - 1) + 1] == next_layout(prev));
        assert(cur == next_layout(prev));
        let n = l.len() as int;
        lemma_carry_bit(prev, n - 1);
        assert(cur[n - 1].amount > 0);
        assert forall|k: int| 0 <= k < l.len() implies (#[trigger] cur[k]).deg == l[k].deg + i by {
            assert(prev[k].deg == l[k].deg + i - 1);
        }
        assert forall|k: int| 0 <= k < cur.len() - 1 implies #[trigger] cur[k].deg < cur[k + 1].deg by {
            assert(prev[k].deg < prev[k + 1].deg);
            assert(cur[k].deg == l[k].deg + i);
            assert(cur[k + 1].deg == l[k + 1].deg + i);
        }
    }
}

/// The polynomials of a sorted layout have `deg + 1` values each, no more
/// in an earlier one than in a later one.
proof fn lemma_split_lens(e: Seq<nat>, l: Seq<EvalLayout>)
    requires
        layout_sorted(l),
        e.len() >= layout_size(l),
        l.len() > 0,
    ensures
        forall|i: int| 0 <= i < split_polys(e, l).len() ==> #[trigger] split_polys(e, l)[i].len() <= l.last().deg + 1,
        forall|i: int, k: int|
            0 <= i <= k < split_polys(e, l).len() ==> #[trigger] split_polys(e, l)[i].len() <= #[trigger] split_polys(
                e,
                l,
            )[k].len(),
    decreases l.len(),
{
    let lp = l.drop_last();
    let d = l.last().deg as nat;
    let a = l.last().amount as nat;
    let off = layout_size(lp);
    let g = group_polys(e, off, d, a);
    let sp = split_polys(e, lp);
    assert(split_polys(e, l) == sp + g);
    assert forall|j: int| 0 <= j < a implies #[trigger] g[j].len() == d + 1 by {
        assert(off + (j + 1) * (d + 1) <= off + a * (d + 1)) by (nonlinear_arith)
            requires
                j + 1 <= a,
        ;
        assert(j * (d + 1) + (d + 1) == (j + 1) * (d + 1)) by (nonlinear_arith);
    }
    if lp.len() > 0 {
        assert(layout_sorted(lp)) by {
            assert forall|i: int| 0 <= i < lp.len() - 1 implies #[trigger] lp[i].deg < lp[i + 1].deg by {
                assert(l[i].deg < l[i + 1].deg);
            }
        }
        lemma_split_lens(e, lp);
        assert(lp.last().deg < d) by {
            assert(l[lp.len() - 1].deg < l[lp.len() as int].deg);
        }
    } else {
        assert(sp.len() == 0);
    }
    let all = split_polys(e, l);
    assert forall|i: int| 0 <= i < all.len() implies #[trigger] all[i].len() <= d + 1 by {
        if i >= sp.len() {
            assert(all[i] == g[i - sp.len()]);
        } else {
            assert(all[i] == sp[i]);
        }
    }
    assert forall|i: int, k: int| 0 <= i <= k < all.len() implies #[trigger] all[i].len() <= #[trigger] all[k].len() by {
        if k >= sp.len() {
            assert(all[k] == g[k - sp.len()]);
            if i >= sp.len() {
                assert(all[i] == g[i - sp.len()]);
            } else {
                assert(all[i] == sp[i]);
            }
        } else {
            assert(all[i] == sp[i] && all[k] == sp[k]);
        }
    }
}

/// A layout with no polynomial takes no values.
proof fn lemma_layout_empty(l: Seq<EvalLayout>)
    requires
        layout_polys(l) == 0,
    ensures
        layout_size(l) == 0,
    decreases l.len(),
{
    if l.len() > 0 {
        lemma_layout_empty(l.drop_last());
        assert((l.last().deg + 1) * 0 == 0) by (nonlinear_arith);
    }
}

/// When the values that `evals` lays out are those of polynomials `cs`, the
/// result of the combination holds, in each of its points, the weighted sum
/// of the polynomials.
proof fn lemma_combine_result(evals: Seq<Fe>, layout: Seq<EvalLayout>, point: Seq<[Fe; 2]>, r: Seq<Fe>)
    requires
        layout.len() > 0,
        layout_sorted(layout),
        layout[layout.len() - 1].amount > 0,
        evals.len() == layout_size(layout),
        layout_polys(layout) <= pow2(point.len() as nat),
        layout[layout.len() - 1].deg + point.len() <= 29,
        forall|k: int| 0 <= k < layout.len() ==> (#[trigger] layout[k]).deg + point.len() <= usize::MAX,
        r.len() == layout_size(layouts_from(layout, point.len() as nat)[point.len() as int]),
        split_polys(vals(r), layouts_from(layout, point.len() as nat)[point.len() as int]) == combine_polys(
            split_polys(vals(evals), layout),
            pt_pairs(point),
        ),
    ensures
        forall|cs: Seq<Seq<int>>|
            #[trigger] are_vals_of(split_polys(vals(evals), layout), cs) ==> forall|t: int|
                0 <= t < r.len() ==> r[t].val() == fm(weighted_sum(cs, pt_pairs(point), t, cs.len())),
{
    let k = point.len() as nat;
    let ps = split_polys(vals(evals), layout);
    let pts = pt_pairs(point);
    let lf = layouts_from(layout, k)[k as int];
    let n = layout.len() as int;
    assert forall|cs: Seq<Seq<int>>| #[trigger] are_vals_of(ps, cs) implies forall|t: int|
        0 <= t < r.len() ==> r[t].val() == fm(weighted_sum(cs, pts, t, cs.len())) by {
        lemma_split_lens(vals(evals), layout);
        lemma_split_len(vals(evals), layout);
        assert(layout_polys(layout) >= 1) by {
            assert(layout_polys(layout) == layout_polys(layout.drop_last()) + layout.last().amount);
        }
        let bound = (layout.last().deg + 1) as nat;
        law_combine_polys(ps, cs, pts, bound);
        lemma_layouts_shape(layout, k, k as int);
        lemma_split_len(vals(r), lf);
        assert(layout_polys(lf) == 1);
        let lp = lf.drop_last();
        assert(layout_polys(lf) == layout_polys(lp) + lf.last().amount);
        assert(lf.last() == lf[n - 1]);
        lemma_layout_empty(lp);
        assert(lf.take(n - 1) =~= lp);
        lemma_split_index(vals(r), lf, n - 1, 0);
        let d = lf.last().deg as nat;
        assert(layout_size(lf) == layout_size(lp) + (d + 1) * 1);
        assert(vals(r).subrange(0, d as int + 1) =~= vals(r));
        assert forall|t: int| 0 <= t < r.len() implies r[t].val() == fm(weighted_sum(cs, pts, t, cs.len())) by {
            assert(combine_polys(ps, pts)[0][t] == fm(weighted_sum(cs, pts, t, cs.len())));
            assert(vals(r)[t] == r[t].val());
        }
    }
}

/// Combines the cross terms: `evals` holds, laid out by `layout`, the values
/// of polynomials in `0..=d`; `point` holds the challenges, each by its values
/// in `0` and `1`. Round `i` merges consecutive polynomials pairwise with
/// challenge `i`. The result is what the last round wrote, cut to the
/// layout after the rounds: the values of the single polynomial left, which
/// for polynomials `p_i` given by their values is `sum_i p_i prod_k l_k` over
/// the bits `k` set in `i`, `l_k` the line of challenge `k`.
#[verifier::spinoff_prover]
#[verifier::rlimit(100)]
pub fn combine_cross_terms(evals: Vec<Fe>, layout: Vec<EvalLayout>, point: Vec<[Fe; 2]>) -> (r: Vec<Fe>)
    requires
        layout@.len() > 0,
        layout_sorted(layout@),
        layout@[layout@.len() - 1].amount > 0,
        evals@.len() == layout_size(layout@),
        point@.len() > 0,
        pow2((point@.len() - 1) as nat) < layout_polys(layout@),
        layout_polys(layout@) <= pow2(point@.len() as nat),
        layout@[layout@.len() - 1].deg + point@.len() <= 29,
        forall|k: int| 0 <= k < layout@.len() ==> (#[trigger] layout@[k]).amount < usize::MAX,
        buffers_fit(layouts_from(layout@, point@.len() as nat), point@.len() as nat),
    ensures
        r@.len() == layout_size(layouts_from(layout@, point@.len() as nat)[point@.len() as int]),
        split_polys(vals(r@), layouts_from(layout@, point@.len() as nat)[point@.len() as int])
            == combine_polys(split_polys(vals(evals@), layout@), pt_pairs(point@)),
        forall|cs: Seq<Seq<int>>|
            #[trigger] are_vals_of(split_polys(vals(evals@), layout@), cs) ==> forall|t: int|
                0 <= t < r@.len() ==> r@[t].val() == fm(weighted_sum(cs, pt_pairs(point@), t, cs.len())),
{
    let ghost l0 = layout@;
    let nv = point.len();
    let ghost ls = layouts_from(l0, nv as nat);
    let ghost pts = pt_pairs(point@);
    let ghost ps0 = split_polys(vals(evals@), l0);
    let binoms = pascal();
    proof {
        lemma_layouts_from_len(l0, nv as nat);
        lemma_deg_bound(l0, nv as nat);
    }
    let layouts = compute_layouts(layout, nv);
    let size1 = layouts[1].total_size();
    let mut buf0 = evals;
    let mut buf1 = zeros(size1);
    let mut cur0 = true;
    let mut i: usize = 0;
    proof {
        assert(pts.skip(0) =~= pts);
    }
    while i < nv
        invariant
            nv == point@.len(),
            nv > 0,
            layouts@.len() == nv + 1,
            forall|j: int| 0 <= j <= nv ==> (#[trigger] layouts@[j])@ == ls[j],
            ls == layouts_from(l0, nv as nat),
            ls.len() == nv + 1,
            forall|j: int| 0 <= j < nv ==> #[trigger] ls[j + 1] == next_layout(ls[j]),
            l0.len() > 0,
            layout_sorted(l0),
            l0[l0.len() - 1].amount > 0,
            l0[l0.len() - 1].deg + nv <= 29,
            forall|k: int| 0 <= k < l0.len() ==> (#[trigger] l0[k]).deg + nv <= 29,
            buffers_fit(ls, nv as nat),
            buf0@.len() == layout_size(ls[0]),
            buf1@.len() == layout_size(ls[1]),
            binoms_ok(binoms@),
            pts == pt_pairs(point@),
            i <= nv,
            cur0 == (i % 2 == 0),
            combine_polys(split_polys(vals(if cur0 { buf0@ } else { buf1@ }), ls[i as int]), pts.skip(i as int))
                == combine_polys(ps0, pts),
        decreases nv - i,
    {
        proof {
            lemma_layouts_shape(l0, nv as nat, i as int);
            lemma_layouts_shape(l0, nv as nat, i + 1);
            assert forall|k: int| 0 <= k < ls[i as int].len() implies (#[trigger] ls[i as int][k]).deg + 2 <= 30 by {
                assert(l0[k].deg + nv <= 29);
            }
            if i >= 1 {
                let im = i - 1;
                if im >= 1 {
                    assert(layout_size(ls[im + 1]) <= if im % 2 == 1 { layout_size(ls[0]) } else { layout_size(ls[1]) });
                }
                assert(layout_size(ls[i as int]) <= if (i - 1) % 2 == 1 { layout_size(ls[0]) } else { layout_size(ls[1]) });
            }
            if i >= 1 {
                assert(layout_size(ls[i + 1]) <= if i % 2 == 1 { layout_size(ls[0]) } else { layout_size(ls[1]) });
            }
        }
        let ghost before = vals(if cur0 { buf0@ } else { buf1@ });
        let p0 = point[i][0];
        let p1 = point[i][1];
        if cur0 {
            merge_phase(&buf0, &mut buf1, &layouts[i], &layouts[i + 1], p0, p1, &binoms);
        } else {
            merge_phase(&buf1, &mut buf0, &layouts[i], &layouts[i + 1], p0, p1, &binoms);
        }
        proof {
            let after = vals(if cur0 { buf1@ } else { buf0@ });
            assert(split_polys(after, ls[i + 1]) == phase_polys(split_polys(before, ls[i as int]), pts[i as int].0, pts[i as int].1));
            assert(pts.skip(i as int)[0] == pts[i as int]);
            assert(pts.skip(i as int).drop_first() =~= pts.skip(i + 1));
        }
        cur0 = !cur0;
        i = i + 1;
    }
    proof {
        assert(pts.skip(nv as int) =~= Seq::<(nat, nat)>::empty());
        if nv >= 2 {
            assert(layout_size(ls[(nv - 1) + 1]) <= if (nv - 1) % 2 == 1 { layout_size(ls[0]) } else { layout_size(ls[1]) });
        }
    }
    let mut r = if cur0 {
        buf0
    } else {
        buf1
    };
    let ghost full = vals(r@);
    let rl = r.len();
    proof {
        assert(layout_size(ls[nv as int]) <= rl);
        assert(layouts@[nv as int]@ == ls[nv as int]);
    }
    let size = layouts[nv].total_size();
    r.truncate(size);
    proof {
        assert(vals(r@) =~= full.take(size as int));
        assert(vals(r@).take(size as int) =~= full.take(size as int));
        lemma_split_prefix(vals(r@), full, ls[nv as int]);
        lemma_deg_bound(l0, nv as nat);
        lemma_combine_result(evals@, l0, point@, r@);
    }
    r
}


/// Every degree of a sorted layout is at most the last one.
proof fn lemma_deg_bound(l: Seq<EvalLayout>, rounds: nat)
    requires
        l.len() > 0,
        layout_sorted(l),
        l[l.len() - 1].deg + rounds <= 29,
    ensures
        forall|k: int| 0 <= k < l.len() ==> (#[trigger] l[k]).deg + rounds <= 29,
{
    assert forall|k: int| 0 <= k < l.len() implies (#[trigger] l[k]).deg + rounds <= 29 by {
        if k < l.len() - 1 {
            lemma_sorted_lt(l, k, l.len() - 1);
        }
    }
}

/// In a sorted layout, degrees increase along any two positions.
proof fn lemma_sorted_lt(l: Seq<EvalLayout>, a: int, b: int)
    requires
        layout_sorted(l),
        0 <= a < b < l.len(),
    ensures
        l[a].deg < l[b].deg,
    decreases b - a,
{
    if b > a + 1 {
        lemma_sorted_lt(l, a, b - 1);
    }
    assert(l[b - 1].deg < l[b].deg);
}

/// The chunks are consecutive, start at 0, cover `0..total`, and are not
/// empty.
pub open spec fn chunks_cover(r: Seq<(usize, usize)>, total: nat) -> bool {
    &&& forall|i: int| 0 <= i < r.len() ==> (#[trigger] r[i]).1 > 0
    &&& r.len() > 0 ==> r[0].0 == 0
    &&& forall|i: int| 0 <= i < r.len() - 1 ==> #[trigger] r[i + 1].0 == r[i].0 + r[i].1
    &&& if r.len() > 0 { r.last().0 + r.last().1 == total } else { total == 0 }
}

/// The chunk starts at `off` and has length `len`.
pub open spec fn is_chunk(c: (usize, usize), off: int, len: int) -> bool {
    c.0 == off && c.1 == len
}

/// How `total` iterations are split among `threads` workers: the first
/// `total % threads` chunks take one iteration more than the others, and
/// there are no empty chunks. Each chunk is its offset and its length.
pub fn chunk_plan(total: usize, threads: usize) -> (r: Vec<(usize, usize)>)
    requires
        threads > 0,
    ensures
        r@.len() == if total < threads { total } else { threads },
        chunks_cover(r@, total as nat),
        forall|i: int| 0 <= i < r@.len() ==> (#[trigger] r@[i]).1 == if i < total % threads {
            total / threads + 1
        } else {
            (total / threads) as int
        },
{
    let base = total / threads;
    let cutoff = total % threads;
    proof {
        assert(total == threads * base + cutoff) by {
            vstd::arithmetic::div_mod::lemma_fundamental_div_mod(total as int, threads as int);
        }
        assert(cutoff * (base + 1) <= total) by (nonlinear_arith)
            requires
                total == threads * base + cutoff,
                cutoff < threads,
        ;
        assert(cutoff * (base + 1) == cutoff * base + cutoff) by (nonlinear_arith);
        assert(cutoff > 0 ==> base + 1 <= total) by (nonlinear_arith)
            requires
                total == threads * base + cutoff,
                threads >= 1,
        ;
    }
    let split_pos = cutoff * base + cutoff;
    let mut out: Vec<(usize, usize)> = Vec::new();
    let mut id: usize = 0;
    while id < cutoff
        invariant
            base == total / threads,
            cutoff == total % threads,
            total == threads * base + cutoff,
            cutoff < threads,
            split_pos == cutoff * (base + 1),
            split_pos <= total,
            id <= cutoff,
            out@.len() == id,
            forall|i: int| 0 <= i < id ==> is_chunk(#[trigger] out@[i], i * (base + 1), base + 1),
        decreases cutoff - id,
    {
        proof {
            assert(id * (base + 1) + (base + 1) <= split_pos) by (nonlinear_arith)
                requires
                    id < cutoff,
                    split_pos == cutoff * (base + 1),
            ;
        }
        out.push((id * (base + 1), base + 1));
        id = id + 1;
    }
    if base != 0 {
        let mut k: usize = 0;
        while k < threads - cutoff
            invariant
                base == total / threads,
                base > 0,
                cutoff == total % threads,
                total == threads * base + cutoff,
                cutoff < threads,
                split_pos == cutoff * (base + 1),
                split_pos <= total,
                k <= threads - cutoff,
                out@.len() == cutoff + k,
                forall|i: int| 0 <= i < cutoff ==> is_chunk(#[trigger] out@[i], i * (base + 1), base + 1),
                forall|i: int| 0 <= i < k ==> is_chunk(#[trigger] out@[cutoff + i], split_pos + i * base, base as int),
            decreases threads - cutoff - k,
        {
            proof {
                assert(split_pos + k * base + base <= total) by (nonlinear_arith)
                    requires
                        k < threads - cutoff,
                        split_pos == cutoff * (base + 1),
                        total == threads * base + cutoff,
                ;
            }
            out.push((split_pos + k * base, base));
            k = k + 1;
        }
        proof {
            assert(split_pos + (threads - cutoff) * base == total) by (nonlinear_arith)
                requires
                    split_pos == cutoff * (base + 1),
                    total == threads * base + cutoff,
            ;
            assert forall|i: int| 0 <= i < out@.len() - 1 implies #[trigger] out@[i + 1].0 == out@[i].0 + out@[i].1 by {
                if i + 1 < cutoff {
                    assert((i + 1) * (base + 1) == i * (base + 1) + (base + 1)) by (nonlinear_arith);
                } else if i + 1 == cutoff {
                    assert(is_chunk(out@[cutoff + 0], split_pos + 0 * base, base as int));
                    assert(cutoff * (base + 1) == (cutoff - 1) * (base + 1) + (base + 1)) by (nonlinear_arith)
                        requires
                            cutoff >= 1,
                    ;
                } else {
                    let j = i - cutoff;
                    assert(is_chunk(out@[cutoff + j], split_pos + j * base, base as int));
                    assert(is_chunk(out@[cutoff + (j + 1)], split_pos + (j + 1) * base, base as int));
                    assert((j + 1) * base == j * base + base) by (nonlinear_arith);
                }
            }
            if out@.len() > 0 {
                let last = out@.len() - 1;
                let j = last - cutoff;
                assert(is_chunk(out@[cutoff + j], split_pos + j * base, base as int));
                assert(j * base + base == (threads - cutoff) * base) by (nonlinear_arith)
                    requires
                        j == threads - cutoff - 1,
                ;
            }
            assert(total >= threads) by (nonlinear_arith)
                requires
                    total == threads * base + cutoff,
                    base >= 1,
            ;
            assert forall|i: int| 0 <= i < out@.len() implies (#[trigger] out@[i]).1 > 0 && out@[i].1 == (if i < cutoff {
                base + 1
            } else {
                base as int
            }) by {
                if i >= cutoff {
                    let j = i - cutoff;
                    assert(is_chunk(out@[cutoff + j], split_pos + j * base, base as int));
                }
            }
        }
    } else {
        proof {
            assert(threads * base == 0) by (nonlinear_arith)
                requires
                    base == 0,
            ;
            assert(cutoff == total);
            assert forall|i: int| 0 <= i < out@.len() - 1 implies #[trigger] out@[i + 1].0 == out@[i].0 + out@[i].1 by {
                assert((i + 1) * (base + 1) == i * (base + 1) + (base + 1)) by (nonlinear_arith);
            }
            if out@.len() > 0 {
                assert((cutoff - 1) * (base + 1) + (base + 1) == cutoff * (base + 1)) by (nonlinear_arith)
                    requires
                        cutoff >= 1,
                ;
                assert(is_chunk(out@[cutoff - 1], (cutoff - 1) * (base + 1), base + 1));
            }
            if total >= threads {
                assert(total / threads >= 1) by {
                    vstd::arithmetic::div_mod::lemma_div_is_ordered(threads as int, total as int, threads as int);
                    vstd::arithmetic::div_mod::lemma_div_by_self(threads as int);
                }
            }
        }
    }
    out
}

} // verus!
