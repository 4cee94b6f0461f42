//! Combination of cross terms: given the values of polynomials in `0..=d`,
//! fold them pairwise with the challenge polynomials, one challenge per
//! round, until a single polynomial remains.

use vstd::prelude::*;
use vstd::arithmetic::power2::pow2;
use crate::field::{Fe, fadd, fsub, fmul, fneg, fm, field_modulus, vals};
use crate::field_utils::FieldUtils;

verus! {

/// `amount` polynomials of degree `deg`, each given by its values in `0..=deg`.
#[derive(Clone, Copy, Debug)]
pub struct EvalLayout {
    pub deg: usize,
    pub amount: usize,
}

/// Number of values a layout takes.
pub open spec fn layout_size(l: Seq<EvalLayout>) -> nat
    decreases l.len(),
{
    if l.len() == 0 {
        0
    } else {
        layout_size(l.drop_last()) + ((l.last().deg + 1) * l.last().amount) as nat
    }
}

/// Number of polynomials of a layout.
pub open spec fn layout_polys(l: Seq<EvalLayout>) -> nat
    decreases l.len(),
{
    if l.len() == 0 {
        0
    } else {
        layout_polys(l.drop_last()) + l.last().amount as nat
    }
}

/// Degrees strictly increase.
pub open spec fn layout_sorted(l: Seq<EvalLayout>) -> bool {
    forall|i: int| 0 <= i < l.len() - 1 ==> #[trigger] l[i].deg < l[i + 1].deg
}

/// Sanity checks on a layout.
pub trait SanitizeLayout {
    /// The layout as a sequence of entries.
    spec fn entries(&self) -> Seq<EvalLayout>;

    /// Number of values the layout takes.
    fn total_size(&self) -> (r: usize)
        requires
            layout_size(self.entries()) <= usize::MAX,
        ensures
            r == layout_size(self.entries()),
    ;

    /// Whether the degrees strictly increase.
    fn check(&self) -> (r: bool)
        ensures
            r == layout_sorted(self.entries()),
    ;

    /// Number of polynomials of the layout.
    fn num_polys(&self) -> (r: usize)
        requires
            layout_polys(self.entries()) <= usize::MAX,
        ensures
            r == layout_polys(self.entries()),
    ;
}

pub(crate) proof fn lemma_layout_size_prefix(l: Seq<EvalLayout>, i: int)
    requires
        0 <= i < l.len(),
    ensures
        layout_size(l.take(i + 1)) == layout_size(l.take(i)) + (l[i].deg + 1) * l[i].amount,
        layout_polys(l.take(i + 1)) == layout_polys(l.take(i)) + l[i].amount,
{
    assert(l.take(i + 1).drop_last() =~= l.take(i));
}

pub(crate) proof fn lemma_layout_size_mono(l: Seq<EvalLayout>, i: int)
    requires
        0 <= i <= l.len(),
    ensures
        layout_size(l.take(i)) <= layout_size(l),
        layout_polys(l.take(i)) <= layout_polys(l),
    decreases l.len() - i,
{
    if i < l.len() {
        lemma_layout_size_prefix(l, i);
        lemma_layout_size_mono(l, i + 1);
    } else {
        assert(l.take(i) =~= l);
    }
}

impl SanitizeLayout for Vec<EvalLayout> {
    open spec fn entries(&self) -> Seq<EvalLayout> {
        self@
    }

    fn total_size(&self) -> (r: usize) {
        let mut acc: usize = 0;
        let mut i: usize = 0;
        proof {
            assert(self@.take(0) =~= Seq::<EvalLayout>::empty());
        }
        while i < self.len()
            invariant
                i <= self@.len(),
                layout_size(self@) <= usize::MAX,
                acc == layout_size(self@.take(i as int)),
            decreases self@.len() - i,
        {
            proof {
                lemma_layout_size_prefix(self@, i as int);
                lemma_layout_size_mono(self@, i + 1);
                assert((self@[i as int].deg + 1) * self@[i as int].amount >= 0) by (nonlinear_arith);
                assert((self@[i as int].deg + 1) <= usize::MAX || self@[i as int].amount == 0) by (nonlinear_arith)
                    requires
                        acc + (self@[i as int].deg + 1) * self@[i as int].amount <= usize::MAX,
                        acc >= 0,
                ;
            }
            let e = self[i];
            let term = if e.amount == 0 { 0 } else { (e.deg + 1) * e.amount };
            acc = acc + term;
            i = i + 1;
        }
        proof {
            assert(self@.take(self@.len() as int) =~= self@);
        }
        acc
    }

    fn check(&self) -> (r: bool) {
        let l = self.len();
        let mut flag = true;
        if l > 1 {
            let mut i: usize = 0;
            while i < l - 1
                invariant
                    l == self@.len(),
                    l > 1,
                    i <= l - 1,
                    flag == (forall|j: int| 0 <= j < i ==> #[trigger] self@[j].deg < self@[j + 1].deg),
                decreases l - 1 - i,
            {
                flag = flag && self[i].deg < self[i + 1].deg;
                i = i + 1;
            }
        }
        flag
    }

    fn num_polys(&self) -> (r: usize) {
        let mut acc: usize = 0;
        let mut i: usize = 0;
        proof {
            assert(self@.take(0) =~= Seq::<EvalLayout>::empty());
        }
        while i < self.len()
            invariant
                i <= self@.len(),
                layout_polys(self@) <= usize::MAX,
                acc == layout_polys(self@.take(i as int)),
            decreases self@.len() - i,
        {
            proof {
                lemma_layout_size_prefix(self@, i as int);
                lemma_layout_size_mono(self@, i + 1);
            }
            acc = acc + self[i].amount;
            i = i + 1;
        }
        proof {
            assert(self@.take(self@.len() as int) =~= self@);
        }
        acc
    }
}

/// The binomial coefficient, by Pascal's rule.
pub open spec fn binom(n: nat, k: nat) -> nat
    decreases n,
{
    if k == 0 {
        1
    } else if n == 0 {
        0
    } else {
        binom((n - 1) as nat, (k - 1) as nat) + binom((n - 1) as nat, k)
    }
}

proof fn lemma_binom_zero_above(n: nat, k: nat)
    requires
        k > n,
    ensures
        binom(n, k) == 0,
    decreases n,
{
    if n > 0 {
        lemma_binom_zero_above((n - 1) as nat, (k - 1) as nat);
        lemma_binom_zero_above((n - 1) as nat, k);
    }
}

proof fn lemma_binom_diag(n: nat)
    ensures
        binom(n, n) == 1,
    decreases n,
{
    if n > 0 {
        lemma_binom_diag((n - 1) as nat);
        lemma_binom_zero_above((n - 1) as nat, n);
    }
}

/// From the third row on, every binomial coefficient is below `2^(n-1)`.
proof fn lemma_binom_bound(n: nat, k: nat)
    requires
        n >= 3,
    ensures
        binom(n, k) + 1 <= pow2((n - 1) as nat),
    decreases n,
{
    vstd::arithmetic::power2::lemma_pow2_unfold((n - 1) as nat);
    if k == 0 {
        vstd::arithmetic::power2::lemma_pow2_pos((n - 2) as nat);
    } else if n == 3 {
        reveal_with_fuel(binom, 4);
        if k > 3 {
            lemma_binom_zero_above(3, k);
        }
        vstd::arithmetic::power2::lemma2_to64();
    } else {
        lemma_binom_bound((n - 1) as nat, (k - 1) as nat);
        lemma_binom_bound((n - 1) as nat, k);
    }
}

/// Rows `0..up_to` of Pascal's triangle; row `i` holds `binom(i, j)` for `j <= i`.
pub fn compute_binomial_coefficients(up_to: usize) -> (r: Vec<Vec<u64>>)
    requires
        2 <= up_to < 66,
    ensures
        r@.len() == up_to,
        forall|i: int| 0 <= i < up_to ==> (#[trigger] r@[i])@.len() == i + 1,
        forall|i: int, j: int| 0 <= i < up_to && 0 <= j <= i ==> #[trigger] r@[i]@[j] == binom(i as nat, j as nat),
{
    let mut ret: Vec<Vec<u64>> = Vec::new();
    ret.push(vec![1u64]);
    ret.push(vec![1u64, 1u64]);
    proof {
        reveal_with_fuel(binom, 3);
    }
    let mut i: usize = 2;
    while i < up_to
        invariant
            2 <= i <= up_to < 66,
            ret@.len() == i,
            forall|a: int| 0 <= a < i ==> (#[trigger] ret@[a])@.len() == a + 1,
            forall|a: int, b: int| 0 <= a < i && 0 <= b <= a ==> #[trigger] ret@[a]@[b] == binom(a as nat, b as nat),
        decreases up_to - i,
    {
        let mut row: Vec<u64> = Vec::new();
        row.push(1);
        let mut j: usize = 0;
        while j < i - 1
            invariant
                2 <= i < 66,
                ret@.len() == i,
                forall|a: int| 0 <= a < i ==> (#[trigger] ret@[a])@.len() == a + 1,
                forall|a: int, b: int| 0 <= a < i && 0 <= b <= a ==> #[trigger] ret@[a]@[b] == binom(a as nat, b as nat),
                j <= i - 1,
                row@.len() == j + 1,
                forall|b: int| 0 <= b <= j ==> #[trigger] row@[b] == binom(i as nat, b as nat),
            decreases i - 1 - j,
        {
            proof {
                let x = ret@[i - 1]@[j as int];
                let y = ret@[i - 1]@[j + 1];
                if i >= 4 {
                    lemma_binom_bound(i as nat, (j + 1) as nat);
                    if i - 1 < 64 {
                        vstd::arithmetic::power2::lemma_pow2_strictly_increases((i - 1) as nat, 64);
                    }
                    vstd::arithmetic::power2::lemma2_to64();
                } else {
                    reveal_with_fuel(binom, 4);
                }
                assert(binom(i as nat, (j + 1) as nat) == binom((i - 1) as nat, j as nat) + binom((i - 1) as nat, (j + 1) as nat));
            }
            let tmp = ret[i - 1][j] + ret[i - 1][j + 1];
            row.push(tmp);
            j = j + 1;
        }
        row.push(1);
        proof {
            lemma_binom_diag(i as nat);
        }
        ret.push(row);
        i = i + 1;
    }
    ret
}

/// One round of layouts: a carry runs from lower degrees upward, each group
/// pairs its polynomials into half as many of one degree more, and the last
/// group keeps the final carry.
pub open spec fn next_layout(l: Seq<EvalLayout>) -> Seq<EvalLayout> {
    let n = l.len() as int;
    Seq::new(
        n as nat,
        |k: int|
            EvalLayout {
                deg: (l[k].deg + 1) as usize,
                amount: ((l[k].amount + carry_into(l, k)) / 2 + if k == n - 1 {
                    (l[k].amount + carry_into(l, k)) % 2
                } else {
                    0
                }) as usize,
            },
    )
}

/// The carry that enters group `k`.
pub open spec fn carry_into(l: Seq<EvalLayout>, k: int) -> nat
    decreases k,
{
    if k <= 0 {
        0
    } else {
        ((l[k - 1].amount + carry_into(l, k - 1)) % 2) as nat
    }
}

/// The layouts of all rounds, starting from `l`.
pub open spec fn layouts_from(l: Seq<EvalLayout>, rounds: nat) -> Seq<Seq<EvalLayout>>
    decreases rounds,
{
    if rounds == 0 {
        seq![l]
    } else {
        layouts_from(l, (rounds - 1) as nat).push(next_layout(layouts_from(l, (rounds - 1) as nat).last()))
    }
}

pub(crate) proof fn lemma_layouts_from_len(l: Seq<EvalLayout>, rounds: nat)
    ensures
        layouts_from(l, rounds).len() == rounds + 1,
        layouts_from(l, rounds)[0] == l,
        forall|i: int| 0 <= i <= rounds ==> (#[trigger] layouts_from(l, rounds)[i]).len() == l.len(),
        forall|i: int| 0 <= i < rounds ==> #[trigger] layouts_from(l, rounds)[i + 1] == next_layout(layouts_from(l, rounds)[i]),
    decreases rounds,
{
    if rounds > 0 {
        lemma_layouts_from_len(l, (rounds - 1) as nat);
    }
}

/// Degrees and amounts stay within the bounds that keep a round free of overflow.
pub open spec fn layout_bounded(l: Seq<EvalLayout>, rounds: nat) -> bool {
    forall|k: int| 0 <= k < l.len() ==> (#[trigger] l[k]).deg + rounds <= usize::MAX && l[k].amount < usize::MAX
}

pub(crate) proof fn lemma_next_layout_bounded(l: Seq<EvalLayout>, rounds: nat)
    requires
        rounds >= 1,
        layout_bounded(l, rounds),
    ensures
        layout_bounded(next_layout(l), (rounds - 1) as nat),
{
    assert forall|k: int| 0 <= k < l.len() implies (#[trigger] next_layout(l)[k]).deg + (rounds - 1) <= usize::MAX
        && next_layout(l)[k].amount < usize::MAX by {
        lemma_carry_bit(l, k);
        let _ = l[k];
    }
}

pub(crate) proof fn lemma_carry_bit(l: Seq<EvalLayout>, k: int)
    ensures
        carry_into(l, k) <= 1,
    decreases k,
{
    if k > 0 {
        lemma_carry_bit(l, k - 1);
    }
}

/// Every round halves the number of polynomials, rounding up.
pub proof fn law_next_layout_halves(l: Seq<EvalLayout>)
    requires
        l.len() > 0,
    ensures
        layout_polys(next_layout(l)) == (layout_polys(l) + 1) / 2,
{
    lemma_halves_last(l);
}

/// `2 * merged(k) + carry(k) == amounts(k)` over the first `k` groups, counting
/// the last group without its kept carry.
pub(crate) proof fn lemma_halves_prefix(l: Seq<EvalLayout>, k: int)
    requires
        0 <= k <= l.len(),
        l.len() > 0,
    ensures
        2 * layout_polys(next_layout(l).take(k)) as int + carry_into(l, k) == layout_polys(l.take(k)) as int + (
        if k == l.len() {
            2 * ((l[k - 1].amount + carry_into(l, k - 1)) % 2) as int
        } else {
            0
        }),
    decreases k,
{
    if k == 0 {
        assert(next_layout(l).take(0) =~= Seq::<EvalLayout>::empty());
        assert(l.take(0) =~= Seq::<EvalLayout>::empty());
    } else {
        lemma_halves_prefix(l, k - 1);
        assert(next_layout(l).take(k).drop_last() =~= next_layout(l).take(k - 1));
        assert(l.take(k).drop_last() =~= l.take(k - 1));
        let a = l[k - 1].amount + carry_into(l, k - 1);
        assert(a == 2 * (a / 2) + a % 2);
        if k - 1 == l.len() - 1 {
        }
    }
}

proof fn lemma_halves_last(l: Seq<EvalLayout>)
    requires
        l.len() > 0,
    ensures
        layout_polys(next_layout(l)) == (layout_polys(l) + 1) / 2,
{
    let n = l.len() as int;
    lemma_halves_prefix(l, n);
    assert(next_layout(l).take(n) =~= next_layout(l));
    assert(l.take(n) =~= l);
    let c = (l[n - 1].amount + carry_into(l, n - 1)) % 2;
    lemma_carry_bit(l, n);
    // 2*merged + c == polys + 2c, so merged == (polys + c) / 2 with c == polys % 2.
    let m = layout_polys(next_layout(l)) as int;
    let p = layout_polys(l) as int;
    assert(carry_into(l, n) == c);
    assert(2 * m + c == p + 2 * c);
    assert(m == (p + 1) / 2);
}

/// The layouts of all merging rounds, starting from `layout`.
pub fn compute_layouts(layout: Vec<EvalLayout>, num_vars: usize) -> (r: Vec<Vec<EvalLayout>>)
    requires
        num_vars > 0 ==> layout@.len() > 0,
        layout_bounded(layout@, num_vars as nat),
    ensures
        r@.len() == num_vars + 1,
        forall|i: int| 0 <= i <= num_vars ==> (#[trigger] r@[i])@ == layouts_from(layout@, num_vars as nat)[i],
{
    let mut layouts: Vec<Vec<EvalLayout>> = Vec::new();
    let l = layout.len();
    let ghost l0 = layout@;
    layouts.push(layout);
    let mut i: usize = 0;
    proof {
        lemma_layouts_from_len(l0, num_vars as nat);
    }
    while i < num_vars
        invariant
            i <= num_vars,
            l == l0.len(),
            num_vars > 0 ==> l > 0,
            layout_bounded(l0, num_vars as nat),
            layouts@.len() == i + 1,
            layouts_from(l0, num_vars as nat).len() == num_vars + 1,
            forall|j: int| 0 <= j <= num_vars ==> (#[trigger] layouts_from(l0, num_vars as nat)[j]).len() == l0.len(),
            forall|j: int| 0 <= j < num_vars ==> #[trigger] layouts_from(l0, num_vars as nat)[j + 1] == next_layout(layouts_from(l0, num_vars as nat)[j]),
            layouts_from(l0, num_vars as nat)[0] == l0,
            forall|j: int| 0 <= j <= i ==> (#[trigger] layouts@[j])@ == layouts_from(l0, num_vars as nat)[j],
            layout_bounded(layouts@[i as int]@, (num_vars - i) as nat),
        decreases num_vars - i,
    {
        let ghost src = layouts@[i as int]@;
        let mut tmp: Vec<EvalLayout> = Vec::new();
        let mut carry: usize = 0;
        let mut q: usize = 0;
        while q < layouts[i].len()
            invariant
                layouts@.len() == i + 1,
                src == layouts@[i as int]@,
                src.len() == l,
                layout_bounded(src, (num_vars - i) as nat),
                i < num_vars,
                q <= l,
                tmp@.len() == q,
                carry == carry_into(src, q as int),
                forall|k: int| 0 <= k < q ==> #[trigger] tmp@[k] == (EvalLayout {
                    deg: (src[k].deg + 1) as usize,
                    amount: ((src[k].amount + carry_into(src, k)) / 2) as usize,
                }),
            decreases l - q,
        {
            let e = layouts[i][q];
            proof {
                lemma_carry_bit(src, q as int);
                let _ = src[q as int];
            }
            let amount = e.amount + carry;
            carry = amount % 2;
            tmp.push(EvalLayout { deg: e.deg + 1, amount: amount / 2 });
            q = q + 1;
        }
        proof {
            lemma_carry_bit(src, l as int);
            let _ = src[l - 1];
        }
        let last = tmp[l - 1];
        tmp.set(l - 1, EvalLayout { deg: last.deg, amount: last.amount + carry });
        proof {
            assert(tmp@ =~= next_layout(src));
            lemma_next_layout_bounded(src, (num_vars - i) as nat);
        }
        layouts.push(tmp);
        i = i + 1;
    }
    layouts
}

/// `sum_i (-1)^i binom[i] vals[i]`, negated when `vals` has even length: the
/// value in `d + 1` of the degree-`d` polynomial that takes `vals` in `0..=d`.
pub open spec fn extend_val(vals: Seq<nat>, binom: Seq<u64>) -> nat {
    if vals.len() % 2 == 0 {
        fneg(alt_sum(vals, binom, vals.len() as int))
    } else {
        alt_sum(vals, binom, vals.len() as int)
    }
}

/// `sum_{i < k} (-1)^i binom[i] vals[i]` in the field.
pub open spec fn alt_sum(vals: Seq<nat>, binom: Seq<u64>, k: int) -> nat
    decreases k,
{
    if k <= 0 {
        0
    } else {
        let t = fmul(vals[k - 1], binom[k - 1] as nat);
        if (k - 1) % 2 == 0 {
            fadd(alt_sum(vals, binom, k - 1), t)
        } else {
            fsub(alt_sum(vals, binom, k - 1), t)
        }
    }
}

/// Computes the value in `d + 1` of a degree-`d` polynomial from its values
/// in `0..=d`, given row `d + 1` of Pascal's triangle.
pub fn extend(v: &[Fe], binom: &[u64]) -> (r: Fe)
    requires
        v@.len() + 1 == binom@.len(),
    ensures
        r.val() == extend_val(vals(v@), binom@),
{
    let mut acc = Fe::zero();
    let mut i: usize = 0;
    while i < v.len()
        invariant
            i <= v@.len(),
            v@.len() + 1 == binom@.len(),
            acc.val() == alt_sum(vals(v@), binom@, i as int),
        decreases v@.len() - i,
    {
        let upd = v[i].scale(binom[i]);
        if i % 2 == 0 {
            acc = acc.add(&upd);
        } else {
            acc = acc.sub(&upd);
        }
        i = i + 1;
    }
    if v.len() % 2 == 0 {
        acc.neg()
    } else {
        acc
    }
}

/// The value in `x` of the integer polynomial with coefficients `c`, lowest
/// first.
pub open spec fn ipoly(c: Seq<int>, x: int) -> int
    decreases c.len(),
{
    if c.len() == 0 {
        0
    } else {
        c[0] + x * ipoly(c.drop_first(), x)
    }
}

/// The coefficients of the sum of two polynomials.
pub open spec fn coeff_add(a: Seq<int>, b: Seq<int>) -> Seq<int> {
    let n = if a.len() >= b.len() { a.len() } else { b.len() };
    Seq::new(n, |i: int| (if i < a.len() { a[i] } else { 0 }) + (if i < b.len() { b[i] } else { 0 }))
}

/// The coefficients of `p(x + 1) - p(x)`: for `p = c0 + x q`, that is
/// `q + dq + x dq` with `dq` the difference of `q`.
pub open spec fn coeff_diff(c: Seq<int>) -> Seq<int>
    decreases c.len(),
{
    if c.len() <= 1 {
        Seq::empty()
    } else {
        let q = c.drop_first();
        let dq = coeff_diff(q);
        coeff_add(coeff_add(q, dq), seq![0int] + dq)
    }
}

/// `sum_{i < m} (-1)^i binom(n, i) f(i)`.
pub open spec fn isum(n: nat, m: nat, f: spec_fn(int) -> int) -> int
    decreases m,
{
    if m == 0 {
        0
    } else {
        let i = (m - 1) as nat;
        let t = binom(n, i) * f(i as int);
        isum(n, i, f) + if i % 2 == 0 { t } else { -t }
    }
}

/// `f` shifted by one: `x -> f(x + 1)`.
pub open spec fn shift_fn(f: spec_fn(int) -> int) -> spec_fn(int) -> int {
    |x: int| f(x + 1)
}

/// The difference of two functions.
pub open spec fn sub_fn(f: spec_fn(int) -> int, g: spec_fn(int) -> int) -> spec_fn(int) -> int {
    |x: int| f(x) - g(x)
}

/// A polynomial as a function.
pub open spec fn poly_fn(c: Seq<int>) -> spec_fn(int) -> int {
    |x: int| ipoly(c, x)
}

pub proof fn lemma_ipoly_add(a: Seq<int>, b: Seq<int>, x: int)
    ensures
        ipoly(coeff_add(a, b), x) == ipoly(a, x) + ipoly(b, x),
    decreases a.len() + b.len(),
{
    let s = coeff_add(a, b);
    if a.len() == 0 {
        assert(s =~= b);
    } else if b.len() == 0 {
        assert(s =~= a);
    } else {
        lemma_ipoly_add(a.drop_first(), b.drop_first(), x);
        assert(s.drop_first() =~= coeff_add(a.drop_first(), b.drop_first()));
        let ra = ipoly(a.drop_first(), x);
        let rb = ipoly(b.drop_first(), x);
        assert(x * (ra + rb) == x * ra + x * rb) by (nonlinear_arith);
    }
}

proof fn lemma_ipoly_diff(c: Seq<int>, x: int)
    ensures
        coeff_diff(c).len() == if c.len() == 0 { 0 } else { c.len() - 1 },
        ipoly(coeff_diff(c), x) == ipoly(c, x + 1) - ipoly(c, x),
    decreases c.len(),
{
    if c.len() == 1 {
        let q = c.drop_first();
        assert(q.len() == 0);
        assert(ipoly(q, x) == 0 && ipoly(q, x + 1) == 0);
        assert(x * 0 == 0 && (x + 1) * 0 == 0) by (nonlinear_arith);
        assert(ipoly(c, x) == c[0] + x * ipoly(q, x));
        assert(ipoly(c, x + 1) == c[0] + (x + 1) * ipoly(q, x + 1));
    } else if c.len() > 1 {
        let q = c.drop_first();
        let dq = coeff_diff(q);
        lemma_ipoly_diff(q, x);
        let sh = seq![0int] + dq;
        assert(sh.drop_first() =~= dq);
        lemma_ipoly_add(q, dq, x);
        lemma_ipoly_add(coeff_add(q, dq), sh, x);
        let qx = ipoly(q, x);
        let qx1 = ipoly(q, x + 1);
        let d = ipoly(dq, x);
        assert(ipoly(sh, x) == sh[0] + x * ipoly(sh.drop_first(), x));
        assert(ipoly(sh, x) == x * d);
        assert(coeff_diff(c) == coeff_add(coeff_add(q, dq), sh));
        assert(ipoly(c, x) == c[0] + x * qx);
        assert(ipoly(c, x + 1) == c[0] + (x + 1) * qx1);
        assert(qx + d + x * d == (x + 1) * qx1 - x * qx) by (nonlinear_arith)
            requires
                d == qx1 - qx,
        ;
    }
}

/// Pascal's rule in the alternating sums: the sum of row `n` is the sum of
/// row `n - 1` less that of row `n - 1` on the shifted function.
proof fn lemma_isum_pascal(n: nat, m: nat, f: spec_fn(int) -> int)
    requires
        n >= 1,
        m >= 1,
    ensures
        isum(n, m, f) == isum((n - 1) as nat, m, f) - isum((n - 1) as nat, (m - 1) as nat, shift_fn(f)),
    decreases m,
{
    let n1 = (n - 1) as nat;
    if m == 1 {
        assert(binom(n, 0) == 1 && binom(n1, 0) == 1);
        assert(isum(n, 0, f) == 0 && isum(n1, 0, f) == 0);
        let f0 = f(0);
        assert(binom(n, 0) * f0 == f0 && binom(n1, 0) * f0 == f0) by (nonlinear_arith)
            requires
                binom(n, 0) == 1 && binom(n1, 0) == 1,
        ;
        assert(isum(n, 1, f) == f(0));
        assert(isum(n1, 1, f) == f(0));
        assert(isum(n1, 0, shift_fn(f)) == 0);
    } else {
        let i = (m - 1) as nat;
        let j = (i - 1) as nat;
        lemma_isum_pascal(n, i, f);
        assert(binom(n, i) == binom(n1, j) + binom(n1, i));
        assert(shift_fn(f)(j as int) == f(i as int));
        let fi = f(i as int);
        assert(binom(n, i) * fi == binom(n1, j) * fi + binom(n1, i) * fi) by (nonlinear_arith)
            requires
                binom(n, i) == binom(n1, j) + binom(n1, i),
        ;
        assert(i % 2 == 0 <==> j % 2 == 1);
        let tn = binom(n, i) * fi;
        let t1 = binom(n1, i) * fi;
        let t2 = binom(n1, j) * shift_fn(f)(j as int);
        assert(isum(n, m, f) == isum(n, i, f) + if i % 2 == 0 { tn } else { -tn });
        assert(isum(n1, m, f) == isum(n1, i, f) + if i % 2 == 0 { t1 } else { -t1 });
        assert(isum(n1, i, shift_fn(f)) == isum(n1, j, shift_fn(f)) + if j % 2 == 0 { t2 } else { -t2 });
    }
}

/// The alternating sums are linear.
proof fn lemma_isum_sub(n: nat, m: nat, f: spec_fn(int) -> int, g: spec_fn(int) -> int)
    ensures
        isum(n, m, f) - isum(n, m, g) == isum(n, m, sub_fn(f, g)),
    decreases m,
{
    if m > 0 {
        let i = (m - 1) as nat;
        lemma_isum_sub(n, i, f, g);
        let b = binom(n, i);
        let (a, c) = (f(i as int), g(i as int));
        assert(sub_fn(f, g)(i as int) == a - c);
        assert(b * a - b * c == b * (a - c)) by (nonlinear_arith);
    }
}

/// The `n`-th difference of a polynomial of degree below `n` is zero.
proof fn lemma_isum_poly(c: Seq<int>, n: nat)
    requires
        c.len() <= n,
    ensures
        isum(n, n + 1, poly_fn(c)) == 0,
    decreases n,
{
    let p = poly_fn(c);
    if n == 0 {
        assert(c.len() == 0);
        assert(p(0) == 0);
        assert(binom(0, 0) == 1);
        assert(isum(0, 0, p) == 0);
        assert(binom(0, 0) * p(0) == 0) by (nonlinear_arith)
            requires
                p(0) == 0,
        ;
        assert(isum(0, 1, p) == binom(0, 0) * p(0));
    } else {
        let n1 = (n - 1) as nat;
        lemma_isum_pascal(n, n + 1, p);
        lemma_binom_zero_above(n1, n);
        assert(isum(n1, n + 1, p) == isum(n1, n, p)) by {
            assert(binom(n1, n) * p(n as int) == 0) by (nonlinear_arith)
                requires
                    binom(n1, n) == 0,
            ;
        }
        lemma_isum_sub(n1, n, shift_fn(p), p);
        let dc = coeff_diff(c);
        assert forall|x: int| #[trigger] poly_fn(dc)(x) == sub_fn(shift_fn(p), p)(x) by {
            lemma_ipoly_diff(c, x);
        }
        assert(sub_fn(shift_fn(p), p) =~= poly_fn(dc));
        lemma_ipoly_diff(c, 0);
        lemma_isum_poly(dc, n1);
    }
}

/// The values in `0..n` of the integer polynomial `c`, in the field.
pub open spec fn poly_vals(c: Seq<int>, n: nat) -> Seq<nat> {
    Seq::new(n, |i: int| fm(ipoly(c, i)))
}

/// The alternating sum in the field is the residue of the integer one.
proof fn lemma_alt_sum_fm(v: Seq<nat>, b: Seq<u64>, n: nat, f: spec_fn(int) -> int, k: nat)
    requires
        k <= v.len(),
        k <= b.len(),
        forall|i: int| 0 <= i < k ==> #[trigger] v[i] == fm(f(i)),
        forall|i: int| 0 <= i < k ==> #[trigger] b[i] as nat == binom(n, i as nat),
    ensures
        alt_sum(v, b, k as int) == fm(isum(n, k, f)),
    decreases k,
{
    if k == 0 {
        crate::field::lemma_fm_canonical(0);
    } else {
        let i = (k - 1) as nat;
        lemma_alt_sum_fm(v, b, n, f, i);
        let bi = binom(n, i);
        let fi = f(i as int);
        assert(b[i as int] as nat == bi);
        crate::field::lemma_fm_canonical(bi as int);
        crate::field::lemma_fmul_fm(fi, bi as int);
        assert(fi * bi == bi * fi) by (nonlinear_arith);
        let st = isum(n, i, f);
        let t = bi * fi;
        crate::field::lemma_fadd_fm(st, t);
        crate::field::lemma_fsub_fm(st, t);
    }
}

/// Row `n` of Pascal's triangle fits machine words while `n <= 64`.
proof fn lemma_binom_fits(n: nat, j: nat)
    requires
        n <= 64,
    ensures
        binom(n, j) <= u64::MAX,
{
    if n >= 3 {
        lemma_binom_bound(n, j);
        vstd::arithmetic::power2::lemma2_to64_rest();
        assert(pow2(63) == 0x8000000000000000);
        if n < 64 {
            vstd::arithmetic::power2::lemma_pow2_strictly_increases((n - 1) as nat, 63);
        }
        assert(pow2((n - 1) as nat) <= pow2(63));
    } else if j > n {
        lemma_binom_zero_above(n, j);
    } else {
        reveal_with_fuel(binom, 4);
        assert(binom(n, j) <= 2);
    }
}

/// Extrapolation: `extend_val` on the values in `0..n` of a polynomial of
/// degree below `n`, with row `n` of Pascal's triangle, gives its value in
/// `n`.
pub proof fn law_extend_val_extrapolates(c: Seq<int>, n: nat)
    requires
        c.len() <= n,
        n <= 64,
    ensures
        extend_val(poly_vals(c, n), crate::combine::binom_row(n)) == fm(ipoly(c, n as int)),
{
    let v = poly_vals(c, n);
    let b = crate::combine::binom_row(n);
    let p = poly_fn(c);
    assert forall|i: int| 0 <= i < n implies #[trigger] b[i] as nat == binom(n, i as nat) by {
        lemma_binom_fits(n, i as nat);
    }
    assert forall|i: int| 0 <= i < n implies #[trigger] v[i] == fm(p(i)) by {}
    lemma_alt_sum_fm(v, b, n, p, n);
    lemma_isum_poly(c, n);
    lemma_binom_diag(n);
    let pn = p(n as int);
    assert(binom(n, n) * pn == pn) by (nonlinear_arith)
        requires
            binom(n, n) == 1,
    ;
    let st = isum(n, n, p);
    assert(isum(n, n + 1, p) == st + if n % 2 == 0 { pn } else { -pn });
    if n % 2 == 0 {
        crate::field::lemma_fneg_fm(st);
    }
}

/// Merging: `merge_vals` on the values in `0..n` of polynomials `p` and `q`
/// of degree below `n` gives, in `0..=n`, the values of `p + q z`.
pub proof fn law_merge_vals(p: Seq<int>, q: Seq<int>, z: Seq<nat>, n: nat)
    requires
        p.len() <= n,
        q.len() <= n,
        z.len() == n + 1,
        n <= 64,
    ensures
        merge_vals(poly_vals(p, n), poly_vals(q, n), z, crate::combine::binom_row(n)) == Seq::new(
            n + 1,
            |i: int| fadd(fm(ipoly(p, i)), fmul(fm(ipoly(q, i)), z[i])),
        ),
{
    law_extend_val_extrapolates(p, n);
    law_extend_val_extrapolates(q, n);
    let r = merge_vals(poly_vals(p, n), poly_vals(q, n), z, crate::combine::binom_row(n));
    let e = Seq::new(n + 1, |i: int| fadd(fm(ipoly(p, i)), fmul(fm(ipoly(q, i)), z[i])));
    assert(r =~= e);
}

/// The merge of `a` and `b`: their values extended by one point, combined as
/// `a + b * z` pointwise.
pub open spec fn merge_vals(a: Seq<nat>, b: Seq<nat>, z: Seq<nat>, binom: Seq<u64>) -> Seq<nat> {
    let ae = a.push(extend_val(a, binom));
    let be = b.push(extend_val(b, binom));
    Seq::new(a.len() + 1, |i: int| fadd(ae[i], fmul(be[i], z[i])))
}

/// Merges `a` and `b` and writes the result in `target`.
pub fn merge(a: &[Fe], b: &[Fe], target: &mut [Fe], zip_with: &[Fe], binom: &[u64])
    requires
        a@.len() == b@.len(),
        zip_with@.len() == a@.len() + 1,
        old(target)@.len() == a@.len() + 1,
        binom@.len() == a@.len() + 1,
    ensures
        vals(final(target)@) == merge_vals(vals(a@), vals(b@), vals(zip_with@), binom@),
{
    let ae = extend(a, binom);
    let be = extend(b, binom);
    let n = a.len();
    let mut i: usize = 0;
    while i <= n
        invariant
            n == a@.len(),
            a@.len() == b@.len(),
            zip_with@.len() == n + 1,
            target@.len() == n + 1,
            binom@.len() == n + 1,
            ae.val() == extend_val(vals(a@), binom@),
            be.val() == extend_val(vals(b@), binom@),
            i <= n + 1,
            forall|k: int| 0 <= k < i ==> (#[trigger] target@[k]).val() == merge_vals(vals(a@), vals(b@), vals(zip_with@), binom@)[k],
        decreases n + 1 - i,
    {
        let x = if i < n { a[i] } else { ae };
        let y = if i < n { b[i] } else { be };
        let t = x.add(&y.mul(&zip_with[i]));
        target[i] = t;
        i = i + 1;
    }
    proof {
        assert(vals(target@) =~= merge_vals(vals(a@), vals(b@), vals(zip_with@), binom@));
    }
}

} // verus!
