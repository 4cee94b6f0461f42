//! Small ranges: range-checked variables, and the polynomials that vanish
//! on a range or single out one of its points.

use vstd::prelude::*;
use crate::constraint_system::{Variable, Visibility};
use crate::circuit::{
    Circuit, pushed, is_advice, is_poly, has_gate, lemma_gate_kept, lemma_grown_trans, lemma_room_step, lemma_room_left,
    lemma_extends_refl, lemma_fresh_kept,
};
use crate::gatelib::{LibGate, GateKind, PolyKind};
use crate::advice::AdviceKind;
use crate::field::{Fe, le_val, is_inverse, fsub, fmul, fm, finv, field_modulus, lemma_finv_unique, lemma_fm_canonical, lemma_fmul_comm};
use crate::field_utils::{FieldUtils, two_inv_fe, two_inv, half_square_val, lagrange_prod_int};
use crate::gadgets::lagrange::{
    range_prod, range_prod_skip, center_shift, lemma_pair, lemma_skip_step, lemma_center_odd, lemma_range_prod_one,
    lemma_range_prod_lt, lemma_skip_by_pair, lemma_range_prod_low, lemma_range_prod_ends, lemma_outer_grow,
    lemma_fmul_one_pub, lemma_skip_at_self, lemma_skip_at_other, lemma_range_prod_zero,
};

verus! {

/// A variable checked to lie in `0..range`.
#[derive(Clone, Copy)]
pub struct VarSmall {
    pub var: Variable,
    pub range: u32,
}

impl VarSmall {
    /// Checks the variable to lie in `0..base`, with a gate
    /// `prod_{j < base} (x - j)`.
    pub fn new(circuit: &mut Circuit, var: Variable, base: u32) -> (r: Self)
        requires
            old(circuit).wf(),
            old(circuit).has_var(var),
            1 <= base <= 50,
            old(circuit).rhs_room(1),
        ensures
            r.var == var,
            r.range == base,
            final(circuit).wf(),
            final(circuit).extends(old(circuit)),
            final(circuit).grew(old(circuit), 1),
            final(circuit).ops_view() == old(circuit).ops_view(),
            final(circuit).cs.wspec() == old(circuit).cs.wspec(),
            has_gate(final(circuit).cs.all_constraints(), GateKind::RangeCheck { range: base as usize }, seq![var]),
    {
        let one = vec![var];
        proof {
            assert(one@ =~= seq![var]);
        }
        circuit.constrain(one.as_slice(), LibGate::new(GateKind::RangeCheck { range: base as usize }));
        Self { var, range: base }
    }

    /// Takes the variable as being in range, without a check.
    pub fn new_unchecked(var: Variable, range: u32) -> (r: Self)
        ensures
            r.var == var,
            r.range == range,
    {
        Self { var, range }
    }
}

/// The value in `x` of the Lagrange basis polynomial of the point `t` on the
/// set `0..n`: `prod_{j != t} (x - j) / prod_{j != t} (t - j)`.
pub open spec fn lagrange_val(x: nat, t: nat, n: nat) -> nat {
    fmul(range_prod_skip(x, 0, n as int, t as int), finv(fm(lagrange_prod_int(t as int, n as int))))
}

/// On the points of the range the basis polynomial of `t` is one in `t` and
/// zero elsewhere.
proof fn lemma_lagrange_at_points(s: nat, t: nat, n: nat)
    requires
        s < n,
        t < n,
        n < 30,
        is_inverse(fm(lagrange_prod_int(t as int, n as int)), finv(fm(lagrange_prod_int(t as int, n as int)))),
    ensures
        lagrange_val(s, t, n) == (if s == t { 1nat } else { 0nat }),
{
    assert(field_modulus() > 30);
    if s == t {
        lemma_skip_at_self(t, n as int);
    } else {
        lemma_skip_at_other(s, t as int, n as int);
        assert(0 * finv(fm(lagrange_prod_int(t as int, n as int))) == 0);
    }
}

/// `q = x - (n - 1)/2` and `q^2`.
fn center(x: &Fe, n: u64) -> (r: (Fe, Fe))
    requires
        n >= 1,
    ensures
        r.0.val() == center_shift(x.val(), n as nat),
        r.1.val() == fmul(center_shift(x.val(), n as nat), center_shift(x.val(), n as nat)),
{
    let q = x.sub(&two_inv_fe().scale(n - 1));
    let y = q.square();
    (q, y)
}

/// `q^2 - ((n - 1 - 2j)/2)^2`, that is `(x - j)(x - (n - 1 - j))`.
fn pair_factor(x: &Fe, y: &Fe, n: u64, k: u64, Ghost(j): Ghost<nat>) -> (r: Fe)
    requires
        n >= 1,
        k < 50,
        k == n - 1 - 2 * j,
        2 * j <= n - 1,
        y.val() == fmul(center_shift(x.val(), n as nat), center_shift(x.val(), n as nat)),
    ensures
        r.val() == fmul(fm(x.val() - j), fm(x.val() - (n - 1 - j))),
{
    proof {
        x.lemma_val_lt();
        lemma_pair(x.val(), n as nat, j);
    }
    y.sub(&Fe::half_square(k))
}

/// `x - c` for a small constant `c`.
fn minus_const(x: &Fe, c: u64) -> (r: Fe)
    ensures
        r.val() == fm(x.val() - c),
{
    proof {
        x.lemma_val_lt();
        lemma_fm_canonical(x.val() as int);
    }
    let r = x.sub(&Fe::from_u64(c));
    proof {
        crate::field::lemma_fsub_fm(x.val() as int, c as int);
        vstd::arithmetic::div_mod::lemma_small_mod(c as nat, field_modulus());
    }
    r
}

/// A polynomial of degree `range` that vanishes exactly on `0..range`:
/// `prod_{j < range} (x - j)`, computed from the squares around the center.
pub fn rangecheck(x: Fe, range: u64) -> (r: Fe)
    requires
        1 <= range <= 50,
    ensures
        r.val() == range_prod(x.val(), 0, range as int),
        x.val() < range ==> r.val() == 0,
{
    let ghost xv = x.val();
    proof {
        if xv < range {
            lemma_range_prod_zero(xv, 0, range as int);
        }
    }
    let (q, y) = center(&x, range);
    let l = range / 2;
    if range % 2 == 0 {
        let mut acc = Fe::one();
        let mut i: u64 = 0;
        while i < l
            invariant
                range % 2 == 0,
                1 <= range <= 50,
                l == range / 2,
                i <= l,
                xv == x.val(),
                y.val() == fmul(center_shift(xv, range as nat), center_shift(xv, range as nat)),
                acc.val() == range_prod(xv, l - i, l + i),
            decreases l - i,
        {
            let f = pair_factor(&x, &y, range, 1 + 2 * i, Ghost((l - 1 - i) as nat));
            let ghost prev = acc.val();
            acc = acc.mul(&f);
            proof {
                lemma_skip_step(xv, (l - i) as int, (l + i) as int, -1);
                assert(range_prod_skip(xv, (l - i) as int, (l + i) as int, -1) == range_prod(xv, (l - i) as int, (l + i) as int));
                assert(range - 1 - (l - 1 - i) == l + i);
            }
            i = i + 1;
        }
        acc
    } else {
        let mut acc = q;
        let mut i: u64 = 0;
        proof {
            x.lemma_val_lt();
            lemma_center_odd(xv, l as nat);
            lemma_range_prod_one(xv, l as int);
        }
        while i < l
            invariant
                range % 2 == 1,
                1 <= range <= 50,
                l == range / 2,
                i <= l,
                xv == x.val(),
                y.val() == fmul(center_shift(xv, range as nat), center_shift(xv, range as nat)),
                acc.val() == range_prod(xv, l - i, l + 1 + i),
            decreases l - i,
        {
            let f = pair_factor(&x, &y, range, 2 + 2 * i, Ghost((l - 1 - i) as nat));
            acc = acc.mul(&f);
            proof {
                lemma_skip_step(xv, (l - i) as int, (l + 1 + i) as int, -1);
                assert(range - 1 - (l - 1 - i) == l + 1 + i);
            }
            i = i + 1;
        }
        acc
    }
}

/// Multiplies by `1 / prod_{j != t} (t - j)`.
fn times_inv_lagrange(v: &Fe, t: u64, n: u64) -> (r: Fe)
    requires
        2 <= n < 30,
        t < n,
    ensures
        r.val() == fmul(v.val(), finv(fm(lagrange_prod_int(t as int, n as int)))),
        is_inverse(fm(lagrange_prod_int(t as int, n as int)), finv(fm(lagrange_prod_int(t as int, n as int)))),
{
    let inv = Fe::inv_lagrange_prod(t, n);
    proof {
        inv.lemma_val_lt();
        crate::field::lemma_fm_bound(lagrange_prod_int(t as int, n as int));
        lemma_finv_unique(fm(lagrange_prod_int(t as int, n as int)), inv.val());
    }
    v.mul(&inv)
}

/// The Lagrange basis polynomial of `t` on `0..range`, in `x`: one in `t`,
/// zero in the other points of the range.
pub fn lagrange_choice(x: Fe, t: u64, range: u64) -> (r: Fe)
    requires
        2 <= range < 30,
        t < range,
    ensures
        r.val() == lagrange_val(x.val(), t as nat, range as nat),
        x.val() < range ==> r.val() == (if x.val() == t { 1nat } else { 0nat }),
{
    let ghost xv = x.val();
    let ghost ti = t as int;
    let (q, y) = center(&x, range);
    let l = range / 2;
    let ret;
    if range % 2 == 0 {
        let mut acc = Fe::one();
        let mut i: u64 = 0;
        while i < l
            invariant
                range % 2 == 0,
                2 <= range < 30,
                t < range,
                ti == t,
                l == range / 2,
                i <= l,
                xv == x.val(),
                y.val() == fmul(center_shift(xv, range as nat), center_shift(xv, range as nat)),
                acc.val() == range_prod_skip(xv, l - i, l + i, ti),
            decreases l - i,
        {
            proof {
                lemma_skip_step(xv, (l - i) as int, (l + i) as int, ti);
                assert(range - 1 - (l - 1 - i) == l + i);
            }
            if t != i + l && range - 1 - t != i + l {
                let f = pair_factor(&x, &y, range, 1 + 2 * i, Ghost((l - 1 - i) as nat));
                acc = acc.mul(&f);
            } else {
                let f = minus_const(&x, range - 1 - t);
                acc = acc.mul(&f);
            }
            i = i + 1;
        }
        ret = acc;
    } else {
        if 2 * t == range - 1 {
            let mut acc = Fe::one();
            let mut i: u64 = 0;
            proof {
                lemma_range_prod_one(xv, l as int);
                assert(range_prod(xv, l as int, l as int) == 1);
                assert(range_prod(xv, (l + 1) as int, (l + 1) as int) == 1);
                crate::gadgets::lagrange::lemma_fmul_one_pub(1);
            }
            while i < l
                invariant
                    range % 2 == 1,
                    2 <= range < 30,
                    2 * t == range - 1,
                    ti == t,
                    l == range / 2,
                    i <= l,
                    xv == x.val(),
                    y.val() == fmul(center_shift(xv, range as nat), center_shift(xv, range as nat)),
                    acc.val() == range_prod_skip(xv, l - i, l + 1 + i, ti),
                decreases l - i,
            {
                let f = pair_factor(&x, &y, range, 2 + 2 * i, Ghost((l - 1 - i) as nat));
                acc = acc.mul(&f);
                proof {
                    lemma_skip_step(xv, (l - i) as int, (l + 1 + i) as int, ti);
                    assert(range - 1 - (l - 1 - i) == l + 1 + i);
                }
                i = i + 1;
            }
            ret = acc;
        } else {
            let mut acc = q;
            let mut i: u64 = 0;
            proof {
                x.lemma_val_lt();
                lemma_center_odd(xv, l as nat);
                lemma_range_prod_one(xv, l as int);
            }
            while i < l
                invariant
                    range % 2 == 1,
                    2 <= range < 30,
                    t < range,
                    2 * t != range - 1,
                    ti == t,
                    l == range / 2,
                    i <= l,
                    xv == x.val(),
                    y.val() == fmul(center_shift(xv, range as nat), center_shift(xv, range as nat)),
                    acc.val() == range_prod_skip(xv, l - i, l + 1 + i, ti),
                decreases l - i,
            {
                proof {
                    lemma_skip_step(xv, (l - i) as int, (l + 1 + i) as int, ti);
                    assert(range - 1 - (l - 1 - i) == l + 1 + i);
                }
                if t != 1 + i + (range - 1) / 2 && range - 1 - t != 1 + i + (range - 1) / 2 {
                    let f = pair_factor(&x, &y, range, 2 + 2 * i, Ghost((l - 1 - i) as nat));
                    acc = acc.mul(&f);
                } else {
                    let f = minus_const(&x, range - 1 - t);
                    acc = acc.mul(&f);
                }
                i = i + 1;
            }
            ret = acc;
        }
    }
    let r = times_inv_lagrange(&ret, t, range);
    proof {
        if xv < range {
            lemma_lagrange_at_points(xv, t as nat, range as nat);
        }
    }
    r
}

/// The pair of factors `(x - (l - 1 - i)) (x - (n - l + i))`, `l = n / 2`:
/// the `i`-th pair counted outwards from the center.
pub open spec fn pair_val(x: nat, n: int, i: int) -> nat {
    fmul(fm(x - (n / 2 - 1 - i)), fm(x - (n - n / 2 + i)))
}

/// The product of the pairs `0..=i` from the center, with the center itself
/// when `n` is odd: the product over `[l - 1 - i, n - l + 1 + i)`.
pub open spec fn inner_val(x: nat, n: int, i: int) -> nat {
    range_prod(x, n / 2 - 1 - i, n - n / 2 + 1 + i)
}

/// The product of the `i + 1` outermost pairs.
pub open spec fn outer_val(x: nat, n: int, i: int) -> nat {
    fmul(range_prod(x, 0, i + 1), range_prod(x, n - 1 - i, n))
}

/// The pairs of factors around the center, each from the square `y`.
fn pair_squares(x: &Fe, y: &Fe, n: u64) -> (r: Vec<Fe>)
    requires
        4 <= n < 30,
        y.val() == fmul(center_shift(x.val(), n as nat), center_shift(x.val(), n as nat)),
    ensures
        r.len() == n / 2,
        forall|i: int| 0 <= i < n / 2 ==> #[trigger] r[i].val() == pair_val(x.val(), n as int, i),
{
    let l = n / 2;
    let first: u64 = if n % 2 == 0 { 1 } else { 2 };
    let mut sqrs: Vec<Fe> = Vec::new();
    let mut i: u64 = 0;
    while i < l
        invariant
            4 <= n < 30,
            l == n / 2,
            first == n - 2 * l + 1,
            i <= l,
            sqrs.len() == i,
            y.val() == fmul(center_shift(x.val(), n as nat), center_shift(x.val(), n as nat)),
            forall|k: int| 0 <= k < i ==> #[trigger] sqrs[k].val() == pair_val(x.val(), n as int, k),
        decreases l - i,
    {
        let f = pair_factor(x, y, n, first + 2 * i, Ghost((l - 1 - i) as nat));
        proof {
            assert(n - 1 - (l - 1 - i) == n - l + i);
        }
        sqrs.push(f);
        i = i + 1;
    }
    sqrs
}

/// Products of the pairs from the center outwards.
fn inner_prods(x: &Fe, q: &Fe, sqrs: &Vec<Fe>, n: u64) -> (r: Vec<Fe>)
    requires
        4 <= n < 30,
        sqrs.len() == n / 2,
        forall|i: int| 0 <= i < n / 2 ==> #[trigger] sqrs[i].val() == pair_val(x.val(), n as int, i),
        n % 2 == 1 ==> q.val() == fm(x.val() - n / 2),
    ensures
        r.len() == n / 2 - 1,
        forall|i: int| 0 <= i < n / 2 - 1 ==> #[trigger] r[i].val() == inner_val(x.val(), n as int, i),
{
    let ghost xv = x.val();
    let l = n / 2;
    let mut prod_l: Vec<Fe> = Vec::new();
    let mut i: u64 = 0;
    while i < l - 1
        invariant
            4 <= n < 30,
            l == n / 2,
            xv == x.val(),
            i <= l - 1,
            prod_l.len() == i,
            sqrs.len() == l,
            forall|k: int| 0 <= k < l ==> #[trigger] sqrs[k].val() == pair_val(xv, n as int, k),
            n % 2 == 1 ==> q.val() == fm(xv - n / 2),
            forall|k: int| 0 <= k < i ==> #[trigger] prod_l[k].val() == inner_val(xv, n as int, k),
        decreases l - 1 - i,
    {
        let ghost s = sqrs[i as int].val();
        proof {
            sqrs[i as int].lemma_val_lt();
            lemma_skip_step(xv, (l - i) as int, (n - l + i) as int, -1);
        }
        if i == 0 {
            if n % 2 == 0 {
                proof {
                    lemma_fmul_one_pub(s);
                }
                prod_l.push(sqrs[0]);
            } else {
                proof {
                    lemma_range_prod_one(xv, l as int);
                    lemma_fmul_comm(s, q.val());
                }
                prod_l.push(sqrs[0].mul(q));
            }
        } else {
            let p = prod_l[i as usize - 1].mul(&sqrs[i as usize]);
            prod_l.push(p);
        }
        i = i + 1;
    }
    prod_l
}

/// Products of the pairs from the ends inwards.
fn outer_prods(x: &Fe, sqrs: &Vec<Fe>, n: u64) -> (r: Vec<Fe>)
    requires
        4 <= n < 30,
        sqrs.len() == n / 2,
        forall|i: int| 0 <= i < n / 2 ==> #[trigger] sqrs[i].val() == pair_val(x.val(), n as int, i),
    ensures
        r.len() == n / 2 - 1,
        forall|i: int| 0 <= i < n / 2 - 1 ==> #[trigger] r[i].val() == outer_val(x.val(), n as int, i),
{
    let ghost xv = x.val();
    let l = n / 2;
    let mut prod_r: Vec<Fe> = Vec::new();
    let mut i: u64 = 0;
    while i < l - 1
        invariant
            4 <= n < 30,
            l == n / 2,
            xv == x.val(),
            i <= l - 1,
            prod_r.len() == i,
            sqrs.len() == l,
            forall|k: int| 0 <= k < l ==> #[trigger] sqrs[k].val() == pair_val(xv, n as int, k),
            forall|k: int| 0 <= k < i ==> #[trigger] prod_r[k].val() == outer_val(xv, n as int, k),
        decreases l - 1 - i,
    {
        let ghost s = sqrs[(l - 1 - i) as int].val();
        proof {
            sqrs[(l - 1 - i) as int].lemma_val_lt();
            lemma_outer_grow(xv, i as int, (n - i) as int, n as int);
            assert(n - n / 2 + (l - 1 - i) == n - 1 - i);
        }
        if i == 0 {
            proof {
                assert(range_prod(xv, 0, 0) == 1);
                assert(range_prod(xv, n as int, n as int) == 1);
                lemma_fmul_one_pub(1);
                lemma_fmul_one_pub(s);
            }
            prod_r.push(sqrs[l as usize - 1]);
        } else {
            let p = prod_r[i as usize - 1].mul(&sqrs[(l - 1 - i) as usize]);
            prod_r.push(p);
        }
        i = i + 1;
    }
    prod_r
}

/// The product that skips `t` when `t` is in the `i`-th pair: the other
/// factor of the pair, times the pairs inside it and the pairs outside it.
proof fn lemma_skip_in_pair(x: nat, n: int, t: int, i: int)
    requires
        4 <= n,
        0 <= i < n / 2,
        t == n / 2 - 1 - i || t == n - n / 2 + i,
    ensures
        range_prod_skip(x, 0, n, t) == fmul(
            fm(x - (n - 1 - t)),
            fmul(range_prod(x, n / 2 - i, n - n / 2 + i), fmul(range_prod(x, 0, n / 2 - 1 - i), range_prod(x, n - n / 2 + i + 1, n))),
        ),
        i >= 1 ==> range_prod(x, n / 2 - i, n - n / 2 + i) == inner_val(x, n, i - 1),
        i <= n / 2 - 2 ==> fmul(range_prod(x, 0, n / 2 - 1 - i), range_prod(x, n - n / 2 + i + 1, n)) == outer_val(x, n, n / 2 - 2 - i),
{
    lemma_skip_by_pair(x, n, n / 2 - 1 - i, n - n / 2 + i, t);
}

/// `prod_{j != t, j < n} (x - j)` for every `t < n`, for `n >= 4`: each
/// from the pairs inside and outside `t`'s pair, and the other factor of it.
fn skip_products(x: &Fe, n: u64) -> (r: Vec<Fe>)
    requires
        4 <= n < 30,
    ensures
        r.len() == n,
        forall|t: int| 0 <= t < n ==> #[trigger] r[t].val() == range_prod_skip(x.val(), 0, n as int, t),
{
    let ghost xv = x.val();
    let (q, y) = center(x, n);
    let l = n / 2;
    let m = n - l;
    proof {
        x.lemma_val_lt();
        if n % 2 == 1 {
            lemma_center_odd(xv, l as nat);
        }
    }
    let sqrs = pair_squares(x, &y, n);
    let prod_l = inner_prods(x, &q, &sqrs, n);
    let prod_r = outer_prods(x, &sqrs, n);
    let mut ret: Vec<Fe> = Vec::new();
    let mut t: u64 = 0;
    while t < n
        invariant
            4 <= n < 30,
            l == n / 2,
            m == n - l,
            xv == x.val(),
            t <= n,
            ret.len() == t,
            n % 2 == 1 ==> q.val() == fm(xv - n / 2),
            sqrs.len() == l,
            prod_l.len() == l - 1,
            prod_r.len() == l - 1,
            forall|k: int| 0 <= k < l ==> #[trigger] sqrs[k].val() == pair_val(xv, n as int, k),
            forall|k: int| 0 <= k < l - 1 ==> #[trigger] prod_l[k].val() == inner_val(xv, n as int, k),
            forall|k: int| 0 <= k < l - 1 ==> #[trigger] prod_r[k].val() == outer_val(xv, n as int, k),
            forall|k: int| 0 <= k < t ==> #[trigger] ret[k].val() == range_prod_skip(xv, 0, n as int, k),
        decreases n - t,
    {
        if n % 2 == 1 && t == l {
            let prod = prod_r[l as usize - 2].mul(&sqrs[0]);
            proof {
                lemma_outer_grow(xv, l - 1, l + 2, n as int);
            }
            ret.push(prod);
        } else {
            let i = if t >= m { t - m } else { l - 1 - t };
            let ghost inner = range_prod(xv, (l - i) as int, (m + i) as int);
            let ghost outer = fmul(range_prod(xv, 0, (l - 1 - i) as int), range_prod(xv, (m + i + 1) as int, n as int));
            proof {
                lemma_skip_in_pair(xv, n as int, t as int, i as int);
                lemma_range_prod_lt(xv, (l - i) as int, (m + i) as int);
            }
            let core = if i == 0 {
                if n % 2 == 0 {
                    proof {
                        assert(range_prod(xv, l as int, l as int) == 1);
                        lemma_fmul_one_pub(outer);
                    }
                    prod_r[l as usize - 2]
                } else {
                    proof {
                        lemma_range_prod_one(xv, l as int);
                    }
                    q.mul(&prod_r[l as usize - 2])
                }
            } else if i == l - 1 {
                proof {
                    assert(range_prod(xv, 0, 0) == 1);
                    assert(range_prod(xv, n as int, n as int) == 1);
                    lemma_fmul_one_pub(1);
                    lemma_fmul_one_pub(inner);
                }
                prod_l[l as usize - 2]
            } else {
                prod_l[i as usize - 1].mul(&prod_r[(l - 2 - i) as usize])
            };
            let v = minus_const(x, n - t - 1).mul(&core);
            ret.push(v);
        }
        t = t + 1;
    }
    ret
}

/// The values in `x` of all the Lagrange basis polynomials on `0..n`, at
/// once: entry `t` is one in `t` and zero in the other points of the range.
pub fn lagrange_choice_batched(x: Fe, n: u64) -> (r: Vec<Fe>)
    requires
        2 <= n < 30,
    ensures
        r.len() == n,
        forall|t: int| 0 <= t < n ==> #[trigger] r[t].val() == lagrange_val(x.val(), t as nat, n as nat),
        forall|t: int| 0 <= t < n && x.val() < n ==> #[trigger] r[t].val() == (if x.val() == t { 1nat } else { 0nat }),
{
    let ghost xv = x.val();
    proof {
        x.lemma_val_lt();
        lemma_fm_canonical(xv as int);
    }
    let vals = if n > 3 {
        skip_products(&x, n)
    } else if n == 3 {
        let x1 = minus_const(&x, 1);
        let x2 = minus_const(&x, 2);
        proof {
            crate::field::lemma_fm_bound(xv - 1);
            crate::field::lemma_fm_bound(xv - 2);
            lemma_range_prod_one(xv, 0);
            lemma_range_prod_one(xv, 1);
            lemma_range_prod_one(xv, 2);
            assert(range_prod(xv, 0, 0) == 1);
            assert(range_prod(xv, 3, 3) == 1);
            assert(range_prod(xv, 1, 3) == fmul(fm(xv - 1), fm(xv - 2)));
            assert(range_prod(xv, 0, 2) == fmul(xv, fm(xv - 1)));
            lemma_fmul_one_pub(fmul(fm(xv - 1), fm(xv - 2)));
            lemma_fmul_one_pub(fmul(xv, fm(xv - 1)));
        }
        vec![x1.mul(&x2), x.mul(&x2), x.mul(&x1)]
    } else {
        let x1 = minus_const(&x, 1);
        proof {
            crate::field::lemma_fm_bound(xv - 1);
            lemma_range_prod_one(xv, 0);
            lemma_range_prod_one(xv, 1);
            assert(range_prod(xv, 0, 0) == 1);
            assert(range_prod(xv, 2, 2) == 1);
            lemma_fmul_one_pub(fm(xv - 1));
            lemma_fmul_one_pub(xv);
        }
        vec![x1, x]
    };
    let mut ret: Vec<Fe> = Vec::new();
    let mut i: u64 = 0;
    while i < n
        invariant
            2 <= n < 30,
            xv == x.val(),
            i <= n,
            ret.len() == i,
            vals.len() == n,
            forall|t: int| 0 <= t < n ==> #[trigger] vals[t].val() == range_prod_skip(xv, 0, n as int, t),
            forall|t: int| 0 <= t < i ==> #[trigger] ret[t].val() == lagrange_val(xv, t as nat, n as nat),
            forall|t: int| 0 <= t < i && xv < n ==> #[trigger] ret[t].val() == (if xv == t { 1nat } else { 0nat }),
        decreases n - i,
    {
        let v = times_inv_lagrange(&vals[i as usize], i, n);
        proof {
            if xv < n {
                lemma_lagrange_at_points(xv, i as nat, n as nat);
            }
        }
        ret.push(v);
        i = i + 1;
    }
    ret
}

/// The digits of `v` in base `b`, least significant first; zero has the one
/// digit zero.
pub open spec fn base_digits(v: nat, b: nat) -> Seq<nat>
    decreases v,
{
    if b < 2 || v / b == 0 {
        seq![v % b]
    } else {
        proof {
            vstd::arithmetic::div_mod::lemma_div_decreases(v as int, b as int);
        }
        seq![v % b] + base_digits(v / b, b)
    }
}

/// `BigUint::from_bytes_le(x) / base`, back in little-endian bytes: the
/// quotient of the value by `base`. (num-bigint panics on a zero divisor.)
#[verifier::external_body]
fn big_div(x: &Vec<u8>, base: u32) -> (r: Vec<u8>)
    requires
        base > 0,
    ensures
        le_val(r@) == le_val(x@) / (base as nat),
{
    (num_bigint::BigUint::from_bytes_le(x) / base).to_bytes_le()
}

/// `BigUint::from_bytes_le(x) % base`, as its `u32` digits: the remainder
/// as the one digit, and no digit when the remainder is zero.
#[verifier::external_body]
fn big_rem_digits(x: &Vec<u8>, base: u32) -> (r: Vec<u32>)
    requires
        base > 0,
    ensures
        r@ == if le_val(x@) % (base as nat) == 0 {
            Seq::<u32>::empty()
        } else {
            seq![(le_val(x@) % (base as nat)) as u32]
        },
{
    (num_bigint::BigUint::from_bytes_le(x) % base).to_u32_digits()
}

/// A little-endian number is zero exactly when all its bytes are.
proof fn lemma_le_val_zero(s: Seq<u8>)
    ensures
        (le_val(s) == 0) == (forall|i: int| 0 <= i < s.len() ==> #[trigger] s[i] == 0),
    decreases s.len(),
{
    if s.len() > 0 {
        lemma_le_val_zero(s.drop_first());
        if le_val(s) == 0 {
            assert forall|i: int| 0 <= i < s.len() implies #[trigger] s[i] == 0 by {
                if i > 0 {
                    assert(s[i] == s.drop_first()[i - 1]);
                }
            }
        } else if forall|i: int| 0 <= i < s.len() ==> #[trigger] s[i] == 0 {
            assert forall|i: int| 0 <= i < s.drop_first().len() implies #[trigger] s.drop_first()[i] == 0 by {
                assert(s[i + 1] == 0);
            }
            assert(s[0] == 0);
        }
    }
}

/// The number is zero.
fn is_zero_le(x: &Vec<u8>) -> (r: bool)
    ensures
        r == (le_val(x@) == 0),
{
    proof {
        lemma_le_val_zero(x@);
    }
    let mut i: usize = 0;
    while i < x.len()
        invariant
            i <= x@.len(),
            forall|j: int| 0 <= j < i ==> #[trigger] x@[j] == 0,
        decreases x@.len() - i,
    {
        if x[i] != 0 {
            proof {
                assert(x@[i as int] != 0);
                lemma_le_val_zero(x@);
            }
            return false;
        }
        i = i + 1;
    }
    true
}

/// Every digit of `v` in base `b` is nonzero.
pub open spec fn digits_nonzero(v: nat, b: nat) -> bool {
    forall|i: int| 0 <= i < base_digits(v, b).len() ==> #[trigger] base_digits(v, b)[i] != 0
}

/// The digits of the value of `x` in base `base`, least significant first,
/// as the digits of a `BigUint` read back one by one; `None` where a digit
/// is zero, whose remainder has no first `u32` digit to read.
pub fn try_limbs(x: Fe, base: u32) -> (r: Option<Vec<u32>>)
    requires
        base >= 2,
    ensures
        r is Some <==> digits_nonzero(x.val(), base as nat),
        r matches Some(v) ==> v@.len() == base_digits(x.val(), base as nat).len()
            && forall|i: int| 0 <= i < v@.len() ==> #[trigger] v@[i] as nat == base_digits(x.val(), base as nat)[i],
{
    let ghost d = base_digits(x.val(), base as nat);
    let bytes = x.to_bytes();
    let mut cur: Vec<u8> = Vec::new();
    let mut k: usize = 0;
    while k < 32
        invariant
            k <= 32,
            cur@ == bytes@.take(k as int),
        decreases 32 - k,
    {
        cur.push(bytes[k]);
        k = k + 1;
    }
    proof {
        assert(bytes@.take(32) =~= bytes@);
    }
    let mut ret: Vec<u32> = Vec::new();
    loop
        invariant_except_break
            base >= 2,
            d == base_digits(x.val(), base as nat),
            ret@.map_values(|v: u32| v as nat) + base_digits(le_val(cur@), base as nat) == d,
            forall|i: int| 0 <= i < ret@.len() ==> #[trigger] ret@[i] != 0,
        ensures
            ret@.map_values(|v: u32| v as nat) == d,
            forall|i: int| 0 <= i < ret@.len() ==> #[trigger] ret@[i] != 0,
        decreases le_val(cur@),
    {
        let ghost v = le_val(cur@);
        let ghost before = ret@.map_values(|v: u32| v as nat);
        let ghost rest = base_digits(v, base as nat);
        proof {
            assert(rest[0] == v % (base as nat));
            assert(d[before.len() as int] == rest[0]);
        }
        let y = big_rem_digits(&cur, base);
        if y.len() == 0 {
            proof {
                assert(rest.len() >= 1);
                assert((before + rest).len() == d.len());
                assert(d[before.len() as int] == 0);
                assert(before.len() < base_digits(x.val(), base as nat).len());
                assert(base_digits(x.val(), base as nat)[before.len() as int] == 0);
                assert(!digits_nonzero(x.val(), base as nat));
            }
            return None;
        }
        let digit = y[0];
        cur = big_div(&cur, base);
        ret.push(digit);
        proof {
            assert(ret@.map_values(|v: u32| v as nat) =~= before.push(digit as nat));
        }
        if is_zero_le(&cur) {
            proof {
                assert(rest =~= seq![v % (base as nat)]);
                assert(before + rest =~= before.push(digit as nat));
            }
            break;
        }
        proof {
            assert(rest =~= seq![v % (base as nat)] + base_digits(le_val(cur@), base as nat));
            assert(before + rest =~= before.push(digit as nat) + base_digits(le_val(cur@), base as nat));
            vstd::arithmetic::div_mod::lemma_div_decreases(v as int, base as int);
        }
    }
    proof {
        assert forall|i: int| 0 <= i < ret@.len() implies #[trigger] ret@[i] as nat == d[i] by {
            assert(ret@.map_values(|v: u32| v as nat)[i] == ret@[i] as nat);
        }
        assert forall|i: int| 0 <= i < d.len() implies #[trigger] d[i] != 0 by {
            assert(ret@[i] as nat == d[i]);
        }
    }
    Some(ret)
}

/// The digits of the value of `x` in base `base`, least significant first,
/// as the digits of a `BigUint` read back one by one. Each digit is read as
/// the first `u32` digit of the remainder, which a zero remainder does not
/// have: every digit must be nonzero.
pub fn limbs(x: Fe, base: u32) -> (r: Vec<u32>)
    requires
        base >= 2,
        digits_nonzero(x.val(), base as nat),
    ensures
        r@.len() == base_digits(x.val(), base as nat).len(),
        forall|i: int| 0 <= i < r@.len() ==> #[trigger] r@[i] as nat == base_digits(x.val(), base as nat)[i],
{
    match try_limbs(x, base) {
        Some(v) => v,
        None => {
            proof {
                assert(false);
            }
            Vec::new()
        },
    }
}

/// The variables of a list of `VarSmall`.
pub open spec fn small_vars(v: Seq<VarSmall>) -> Seq<Variable> {
    Seq::new(v.len(), |i: int| v[i].var)
}

/// Decomposes `input` into `num_limbs` digits in base `base`, least
/// significant first: an advice computes them (and fails on an input with
/// more digits, or with a zero digit), they are checked to make up `input`,
/// and each is range-checked to `0..base`.
pub fn limb_decompose_gadget(circuit: &mut Circuit, base: u32, round: usize, num_limbs: usize, input: Variable) -> (r: Vec<VarSmall>)
    requires
        old(circuit).wf(),
        round < old(circuit).rounds(),
        old(circuit).has_var(input),
        input.round <= round,
        2 <= base <= 50,
        old(circuit).room(2 * num_limbs as nat + 1),
    ensures
        final(circuit).grown(old(circuit), 2 * num_limbs as nat + 1),
        r@.len() == num_limbs,
        forall|i: int| 0 <= i < num_limbs ==> (#[trigger] r@[i]).range == base,
        final(circuit).fresh(old(circuit), small_vars(r@), round as nat, Visibility::Private),
        pushed(final(circuit).ops_view(), old(circuit).ops_view(), round as int),
        is_advice(final(circuit).ops_view()[round as int].last(), seq![input], small_vars(r@), AdviceKind::Limbs { base, n: num_limbs }),
        has_gate(final(circuit).cs.all_constraints(), GateKind::LimbDecomp { n: num_limbs, base: base as u64 }, small_vars(r@) + seq![input]),
        forall|i: int| 0 <= i < num_limbs ==> has_gate(final(circuit).cs.all_constraints(), GateKind::RangeCheck { range: base as usize }, seq![(#[trigger] r@[i]).var]),
{
    let inp = vec![input];
    proof {
        assert(inp@ =~= seq![input]);
    }
    let limbs = circuit.advice(round, AdviceKind::Limbs { base, n: num_limbs }, inp);
    let ghost mid = *circuit;
    proof {
        lemma_room_step(old(circuit), &mid, num_limbs as nat, num_limbs as nat + 1);
        lemma_extends_refl(&mid);
    }
    let mut io = copy_vars_push(limbs.as_slice(), input);
    proof {
        assert forall|b: int| 0 <= b < io@.len() implies mid.has_var(#[trigger] io@[b]) by {
            if b < limbs@.len() {
                assert(io@[b] == limbs@[b]);
            }
        }
    }
    circuit.constrain(io.as_slice(), LibGate::new(GateKind::LimbDecomp { n: num_limbs, base: base as u64 }));
    let ghost after_decomp = *circuit;
    let mut out: Vec<VarSmall> = Vec::new();
    let mut i: usize = 0;
    while i < num_limbs
        invariant
            i <= num_limbs,
            limbs@.len() == num_limbs,
            2 <= base <= 50,
            mid.room(num_limbs as nat + 1),
            mid.fresh(old(circuit), limbs@, round as nat, Visibility::Private),
            circuit.grown(&mid, i as nat + 1),
            circuit.extends(&after_decomp),
            circuit.ops_view() == mid.ops_view(),
            circuit.rounds() == mid.rounds(),
            out@.len() == i,
            forall|t: int| 0 <= t < i ==> (#[trigger] out@[t]).var == limbs@[t] && out@[t].range == base,
            forall|t: int| 0 <= t < i ==> has_gate(circuit.cs.all_constraints(), GateKind::RangeCheck { range: base as usize }, seq![(#[trigger] out@[t]).var]),
            has_gate(after_decomp.cs.all_constraints(), GateKind::LimbDecomp { n: num_limbs, base: base as u64 }, limbs@ + seq![input]),
        decreases num_limbs - i,
    {
        let ghost prev = *circuit;
        proof {
            lemma_room_left(&mid, &prev, i as nat + 1, num_limbs as nat + 1);
            lemma_fresh_kept(old(circuit), &mid, &prev, limbs@, round as nat, Visibility::Private);
            assert(prev.has_var(limbs@[i as int]));
        }
        let v = VarSmall::new(circuit, limbs[i], base);
        out.push(v);
        proof {
            lemma_grown_trans(&mid, &prev, circuit, i as nat + 1, 1);
            crate::circuit::lemma_extends_trans(&after_decomp, &prev, circuit);
            assert forall|t: int| 0 <= t < i + 1 implies has_gate(circuit.cs.all_constraints(), GateKind::RangeCheck { range: base as usize }, seq![
                (#[trigger] out@[t]).var,
            ]) by {
                if t < i {
                    lemma_gate_kept(&prev, circuit, GateKind::RangeCheck { range: base as usize }, seq![out@[t].var]);
                }
            }
        }
        i = i + 1;
    }
    proof {
        assert(small_vars(out@) =~= limbs@);
        lemma_grown_trans(old(circuit), &mid, circuit, num_limbs as nat, num_limbs as nat + 1);
        lemma_fresh_kept(old(circuit), &mid, circuit, limbs@, round as nat, Visibility::Private);
        lemma_gate_kept(&after_decomp, circuit, GateKind::LimbDecomp { n: num_limbs, base: base as u64 }, limbs@ + seq![input]);
        assert forall|t: int| 0 <= t < num_limbs implies (#[trigger] out@[t]).range == base by {}
    }
    out
}

/// The variables followed by one more.
fn copy_vars_push(v: &[Variable], x: Variable) -> (r: Vec<Variable>)
    ensures
        r@ == v@ + seq![x],
{
    let mut out = crate::constraint_system::copy_vars(v);
    out.push(x);
    proof {
        assert(out@ =~= v@ + seq![x]);
    }
    out
}

/// The `n` lists of `q` variables, one after the other.
pub open spec fn flat(vs: Seq<Vec<Variable>>, q: nat) -> Seq<Variable> {
    Seq::new(vs.len() * q, |t: int| vs[t / (q as int)]@[t % (q as int)])
}

/// Of `n` lists of `q` variables, the one that the index selects: a
/// polynomial of degree `n` in the index, `sum_i L_i(index) v_i`.
pub fn choice_gadget(circuit: &mut Circuit, variants: &[Vec<Variable>], index: VarSmall, round: usize) -> (r: Vec<Variable>)
    requires
        old(circuit).wf(),
        round < old(circuit).rounds(),
        variants@.len() == index.range,
        2 <= index.range < 30,
        index.range <= old(circuit).max_deg(),
        forall|i: int| 0 <= i < variants@.len() ==> (#[trigger] variants@[i])@.len() == variants@[0]@.len(),
        variants@.len() * variants@[0]@.len() + 1 + variants@[0]@.len() <= usize::MAX,
        forall|i: int, j: int| 0 <= i < variants@.len() && 0 <= j < variants@[i]@.len() ==> old(circuit).has_var(
            #[trigger] variants@[i]@[j],
        ) && variants@[i]@[j].round <= round,
        old(circuit).has_var(index.var),
        index.var.round <= round,
        old(circuit).room(variants@[0]@.len() as nat),
    ensures
        final(circuit).grown(old(circuit), variants@[0]@.len() as nat),
        r@.len() == variants@[0]@.len(),
        final(circuit).fresh(old(circuit), r@, round as nat, Visibility::Private),
        pushed(final(circuit).ops_view(), old(circuit).ops_view(), round as int),
        is_poly(
            final(circuit).ops_view()[round as int].last(),
            flat(variants@, variants@[0]@.len() as nat) + seq![index.var],
            r@,
            PolyKind::Choice { n: index.range as usize, q: variants@[0]@.len() as usize },
        ),
        has_gate(
            final(circuit).cs.all_constraints(),
            GateKind::Applied { poly: PolyKind::Choice { n: index.range as usize, q: variants@[0]@.len() as usize } },
            flat(variants@, variants@[0]@.len() as nat) + seq![index.var] + r@,
        ),
{
    let n = index.range as usize;
    let q = variants[0].len();
    let mut v: Vec<Variable> = Vec::new();
    proof {
        assert(0 * q == 0) by (nonlinear_arith);
    }
    let mut i: usize = 0;
    while i < n
        invariant
            i <= n,
            n == variants@.len(),
            q == variants@[0]@.len(),
            forall|k: int| 0 <= k < variants@.len() ==> (#[trigger] variants@[k])@.len() == q,
            n * q + 1 + q <= usize::MAX,
            v@.len() == i * q,
            forall|t: int| 0 <= t < i * q ==> #[trigger] v@[t] == variants@[t / (q as int)]@[t % (q as int)],
        decreases n - i,
    {
        let row = &variants[i];
        let mut j: usize = 0;
        while j < q
            invariant
                i < n,
                j <= q,
                n == variants@.len(),
                q == variants@[0]@.len(),
                *row == variants@[i as int],
                row@.len() == q,
                n * q + 1 + q <= usize::MAX,
                v@.len() == i * q + j,
                forall|t: int| 0 <= t < i * q ==> #[trigger] v@[t] == variants@[t / (q as int)]@[t % (q as int)],
                forall|t: int| 0 <= t < j ==> v@[(i * q + t) as int] == row@[t],
            decreases q - j,
        {
            proof {
                assert(i * q + j < n * q) by (nonlinear_arith)
                    requires
                        i < n,
                        j < q,
                ;
            }
            v.push(row[j]);
            j = j + 1;
        }
        proof {
            assert((i + 1) * q == i * q + q) by (nonlinear_arith);
            assert forall|t: int| 0 <= t < (i + 1) * q implies #[trigger] v@[t] == variants@[t / (q as int)]@[t % (q as int)] by {
                if t >= i * q {
                    let jj = t - i * q;
                    assert(0 <= jj < q);
                    vstd::arithmetic::div_mod::lemma_fundamental_div_mod_converse(t, q as int, i as int, jj);
                    assert(v@[(i * q + jj) as int] == row@[jj]);
                }
            }
        }
        i = i + 1;
    }
    v.push(index.var);
    proof {
        assert(v@ =~= flat(variants@, q as nat) + seq![index.var]);
        assert forall|a: int| 0 <= a < v@.len() implies old(circuit).has_var(#[trigger] v@[a]) && v@[a].round <= round by {
            if a < n * q {
                assert(q > 0) by (nonlinear_arith)
                    requires
                        a < n * q,
                        a >= 0,
                        n >= 0,
                        q >= 0,
                ;
                let ii = a / (q as int);
                let jj = a % (q as int);
                vstd::arithmetic::div_mod::lemma_fundamental_div_mod(a, q as int);
                assert(0 <= ii < n) by {
                    vstd::arithmetic::div_mod::lemma_div_pos_is_pos(a, q as int);
                    assert(ii * (q as int) <= a) by {
                        vstd::arithmetic::div_mod::lemma_mod_pos_bound(a, q as int);
                    }
                    assert(ii < n) by (nonlinear_arith)
                        requires
                            ii * (q as int) <= a,
                            a < n * q,
                            q > 0,
                    ;
                }
                vstd::arithmetic::div_mod::lemma_mod_pos_bound(a, q as int);
                assert(v@[a] == variants@[ii]@[jj]);
            }
        }
    }
    circuit.apply(round, PolyKind::Choice { n, q }, v)
}


/// Decomposes `input` into `num_limbs` digits in base `base`, least
/// significant first, with no range check on the digits: an advice computes
/// them (and fails on an input with more digits, or with a zero digit), and
/// they are checked to make up `input`.
pub fn limb_decompose_unchecked(circuit: &mut Circuit, base: u32, round: usize, num_limbs: usize, input: Variable) -> (r: Vec<Variable>)
    requires
        old(circuit).wf(),
        round < old(circuit).rounds(),
        old(circuit).has_var(input),
        input.round <= round,
        base >= 2,
        old(circuit).room(num_limbs as nat + 1),
    ensures
        final(circuit).grown(old(circuit), num_limbs as nat + 1),
        r@.len() == num_limbs,
        final(circuit).fresh(old(circuit), r@, round as nat, Visibility::Private),
        pushed(final(circuit).ops_view(), old(circuit).ops_view(), round as int),
        is_advice(final(circuit).ops_view()[round as int].last(), seq![input], r@, AdviceKind::Limbs { base, n: num_limbs }),
        has_gate(final(circuit).cs.all_constraints(), GateKind::LimbDecomp { n: num_limbs, base: base as u64 }, r@ + seq![input]),
{
    let inp = vec![input];
    proof {
        assert(inp@ =~= seq![input]);
    }
    let limbs = circuit.advice(round, AdviceKind::Limbs { base, n: num_limbs }, inp);
    let ghost mid = *circuit;
    proof {
        lemma_room_step(old(circuit), &mid, num_limbs as nat, 1);
    }
    let io = copy_vars_push(limbs.as_slice(), input);
    proof {
        assert forall|b: int| 0 <= b < io@.len() implies mid.has_var(#[trigger] io@[b]) by {
            if b < limbs@.len() {
                assert(io@[b] == limbs@[b]);
            }
        }
    }
    circuit.constrain(io.as_slice(), LibGate::new(GateKind::LimbDecomp { n: num_limbs, base: base as u64 }));
    proof {
        lemma_grown_trans(old(circuit), &mid, circuit, num_limbs as nat, 1);
        lemma_fresh_kept(old(circuit), &mid, circuit, limbs@, round as nat, Visibility::Private);
    }
    limbs
}

} // verus!
