//! Products of `x - j` over ranges of integers, and the identity that lets
//! the range gadgets pair the factors `x - j` and `x - (n - 1 - j)` into a
//! difference of squares around the center `(n - 1) / 2`.

use vstd::prelude::*;
use crate::field::{fadd, fsub, fmul, fm, field_modulus, lemma_fmul_fm, lemma_fsub_fm, lemma_fm_canonical, lemma_fm_bound};
use crate::field_utils::{two_inv, half_square_val, lagrange_prod_int};

verus! {

/// `prod_{lo <= j < hi} (x - j)` in the field.
pub open spec fn range_prod(x: nat, lo: int, hi: int) -> nat
    decreases hi - lo,
{
    if hi <= lo {
        1
    } else {
        fmul(range_prod(x, lo, hi - 1), fm(x - (hi - 1)))
    }
}

/// `prod_{lo <= j < hi, j != t} (x - j)`.
pub open spec fn range_prod_skip(x: nat, lo: int, hi: int, t: int) -> nat {
    if lo <= t < hi {
        fmul(range_prod(x, lo, t), range_prod(x, t + 1, hi))
    } else {
        range_prod(x, lo, hi)
    }
}

/// `x - (n - 1)/2` in the field, as the gadgets compute it.
pub open spec fn center_shift(x: nat, n: nat) -> nat {
    fsub(x, fmul(two_inv(), (n - 1) as nat))
}

/// Products are canonical.
pub proof fn lemma_range_prod_lt(x: nat, lo: int, hi: int)
    ensures
        range_prod(x, lo, hi) < field_modulus(),
    decreases hi - lo,
{
    if hi > lo {
        lemma_range_prod_lt(x, lo, hi - 1);
        lemma_fm_bound(0);
    }
}

/// Canonical values multiply as their integer product, reduced.
proof fn lemma_fmul_canon(a: nat, b: nat)
    ensures
        fmul(a, b) == fm((a * b) as int),
{
}

/// A multiple of the modulus added changes no residue.
proof fn lemma_fm_shift(b: int, m: int)
    ensures
        fm(b + field_modulus() * m) == fm(b),
{
    vstd::arithmetic::div_mod::lemma_mod_multiples_vanish(m, b, field_modulus() as int);
    assert(field_modulus() * m + b == b + field_modulus() * m);
}

/// Multiplying by one changes no canonical value.
proof fn lemma_fmul_one(a: nat)
    requires
        a < field_modulus(),
    ensures
        fmul(a, 1) == a,
        fmul(1, a) == a,
{
    vstd::arithmetic::div_mod::lemma_small_mod(a, field_modulus());
    assert(a * 1 == a);
    assert(1 * a == a);
}

/// Multiplying by one changes no canonical value.
pub proof fn lemma_fmul_one_pub(a: nat)
    requires
        a < field_modulus(),
    ensures
        fmul(a, 1) == a,
        fmul(1, a) == a,
{
    lemma_fmul_one(a);
}

/// Four canonical factors: `((a b) c) d == (a d) (b c)` and the like all
/// reduce to the residue of `a b c d`.
proof fn lemma_fmul4(a: nat, b: nat, c: nat, d: nat)
    requires
        a < field_modulus(),
        b < field_modulus(),
        c < field_modulus(),
        d < field_modulus(),
    ensures
        fmul(fmul(fmul(a, b), c), d) == fm((a * b * c * d) as int),
        fmul(fmul(a, d), fmul(b, c)) == fm((a * b * c * d) as int),
        fmul(fmul(a, b), fmul(c, d)) == fm((a * b * c * d) as int),
        fmul(a, fmul(fmul(b, c), d)) == fm((a * b * c * d) as int),
{
    lemma_fm_canonical(a as int);
    lemma_fm_canonical(b as int);
    lemma_fm_canonical(c as int);
    lemma_fm_canonical(d as int);
    lemma_fmul_fm(a as int, b as int);
    lemma_fmul_fm((a * b) as int, c as int);
    lemma_fmul_fm((a * b * c) as int, d as int);
    lemma_fmul_fm(a as int, d as int);
    lemma_fmul_fm(b as int, c as int);
    lemma_fmul_fm((a * d) as int, (b * c) as int);
    lemma_fmul_fm(c as int, d as int);
    lemma_fmul_fm((a * b) as int, (c * d) as int);
    lemma_fmul_fm((b * c) as int, d as int);
    lemma_fmul_fm(a as int, (b * c * d) as int);
    assert((a * d) * (b * c) == a * b * c * d) by (nonlinear_arith);
    assert((a * b) * (c * d) == a * b * c * d) by (nonlinear_arith);
    assert(a * (b * c * d) == a * b * c * d) by (nonlinear_arith);
}

/// Three canonical factors in any order reduce to the residue of their product.
proof fn lemma_fmul3(a: nat, b: nat, c: nat)
    requires
        a < field_modulus(),
        b < field_modulus(),
        c < field_modulus(),
    ensures
        fmul(fmul(a, b), c) == fm((a * b * c) as int),
        fmul(a, fmul(b, c)) == fm((a * b * c) as int),
        fmul(fmul(a, c), b) == fm((a * b * c) as int),
        fmul(b, fmul(a, c)) == fm((a * b * c) as int),
{
    lemma_fmul4(a, b, c, 1);
    lemma_fmul_one(a);
    lemma_fmul_one(b);
    lemma_fmul_one(c);
    lemma_fm_canonical(a as int);
    lemma_fm_canonical(b as int);
    lemma_fm_canonical(c as int);
    lemma_fmul_fm(a as int, c as int);
    lemma_fmul_fm((a * c) as int, b as int);
    lemma_fmul_fm(b as int, (a * c) as int);
    lemma_fmul_fm(b as int, c as int);
    lemma_fmul_fm(a as int, (b * c) as int);
    lemma_fmul_fm(a as int, b as int);
    lemma_fmul_fm((a * b) as int, c as int);
    assert(a * c * b == a * b * c) by (nonlinear_arith);
    assert(b * (a * c) == a * b * c) by (nonlinear_arith);
    assert(a * (b * c) == a * b * c) by (nonlinear_arith);
}

/// Splitting a range: `prod_[a, c) == prod_[a, b) * prod_[b, c)`.
pub proof fn lemma_range_prod_split(x: nat, a: int, b: int, c: int)
    requires
        a <= b <= c,
    ensures
        range_prod(x, a, c) == fmul(range_prod(x, a, b), range_prod(x, b, c)),
    decreases c - b,
{
    lemma_range_prod_lt(x, a, b);
    if c == b {
        lemma_fmul_one(range_prod(x, a, b));
    } else {
        lemma_range_prod_split(x, a, b, c - 1);
        lemma_range_prod_lt(x, b, c - 1);
        lemma_fm_bound(x - (c - 1));
        lemma_fmul3(range_prod(x, a, b), range_prod(x, b, c - 1), fm(x - (c - 1)));
    }
}

/// Taking off the lowest factor.
pub proof fn lemma_range_prod_low(x: nat, lo: int, hi: int)
    requires
        lo < hi,
    ensures
        range_prod(x, lo, hi) == fmul(fm(x - lo), range_prod(x, lo + 1, hi)),
{
    lemma_range_prod_split(x, lo, lo + 1, hi);
    assert(range_prod(x, lo, lo) == 1);
    assert(range_prod(x, lo, lo + 1) == fmul(1, fm(x - lo)));
    lemma_fm_bound(x - lo);
    lemma_fmul_one(fm(x - lo));
}

/// Taking off the lowest and the highest factor.
pub proof fn lemma_range_prod_ends(x: nat, lo: int, hi: int)
    requires
        lo + 2 <= hi,
    ensures
        range_prod(x, lo, hi) == fmul(fmul(fm(x - lo), fm(x - (hi - 1))), range_prod(x, lo + 1, hi - 1)),
{
    lemma_range_prod_low(x, lo, hi);
    lemma_range_prod_lt(x, lo + 1, hi - 1);
    lemma_fm_bound(x - lo);
    lemma_fm_bound(x - (hi - 1));
    lemma_fmul3(fm(x - lo), range_prod(x, lo + 1, hi - 1), fm(x - (hi - 1)));
}

/// The center shift is `x - (n-1)/2` in the field: twice it is `2x - (n-1)`.
proof fn lemma_center_shift(x: nat, n: nat)
    requires
        x < field_modulus(),
        n >= 1,
    ensures
        center_shift(x, n) == fm(x - two_inv() * (n - 1)),
{
    lemma_fm_canonical(x as int);
    lemma_fsub_fm(x as int, two_inv() * (n - 1));
}

/// The factors `x - j` and `x - (n - 1 - j)` multiply to `q^2 - ((n-1-2j)/2)^2`
/// with `q = x - (n-1)/2`.
pub proof fn lemma_pair(x: nat, n: nat, j: nat)
    requires
        x < field_modulus(),
        n >= 1,
        2 * j <= n - 1,
    ensures
        fsub(fmul(center_shift(x, n), center_shift(x, n)), half_square_val((n - 1 - 2 * j) as nat))
            == fmul(fm(x - j), fm(x - (n - 1 - j))),
{
    let p = field_modulus() as int;
    let h = two_inv() as int;
    assert(2 * h == p + 1);
    let k = (n - 1 - 2 * j) as int;
    let qi = x - h * (n - 1);
    lemma_center_shift(x, n);
    let q = center_shift(x, n);
    // q * q
    lemma_fmul_fm(qi, qi);
    // half square
    lemma_fmul_fm(h * k, h * k);
    assert(fmul(two_inv(), k as nat) == fm(h * k));
    assert(half_square_val(k as nat) == fm((h * k) * (h * k)));
    lemma_fsub_fm(qi * qi, (h * k) * (h * k));
    // right-hand side
    lemma_fmul_fm(x - j, x - (n - 1 - j));
    let m = (x * (n - 1) - j * (n - 1 - j) * (2 + p)) as int;
    let xa = x * (n - 1);
    let jb = j * (n - 1 - j);
    let xx = x * x;
    assert(qi * qi == xx - 2 * h * xa + h * h * ((n - 1) * (n - 1))) by (nonlinear_arith)
        requires
            qi == x - h * (n - 1),
            xa == x * (n - 1),
            xx == x * x,
    ;
    assert((h * k) * (h * k) == h * h * (k * k)) by (nonlinear_arith);
    assert((n - 1) * (n - 1) - k * k == 4 * jb) by (nonlinear_arith)
        requires
            k == n - 1 - 2 * j,
            jb == j * (n - 1 - j),
    ;
    assert((x - j) * (x - (n - 1 - j)) == xx - xa + jb) by (nonlinear_arith)
        requires
            xa == x * (n - 1),
            jb == j * (n - 1 - j),
            xx == x * x,
    ;
    assert(h * h * ((n - 1) * (n - 1)) - h * h * (k * k) == (2 * h) * (2 * h) * jb) by (nonlinear_arith)
        requires
            (n - 1) * (n - 1) - k * k == 4 * jb,
    ;
    assert((2 * h) * (2 * h) == (p + 1) * (p + 1));
    assert(m == xa - jb * (2 + p)) by (nonlinear_arith)
        requires
            m == x * (n - 1) - j * (n - 1 - j) * (2 + p),
            xa == x * (n - 1),
            jb == j * (n - 1 - j),
    ;
    let aa = qi * qi;
    let bb = (h * k) * (h * k);
    let cc = (x - j) * (x - (n - 1 - j));
    let dd = h * h * ((n - 1) * (n - 1));
    let ee = h * h * (k * k);
    assert(aa == xx - (p + 1) * xa + dd);
    assert(bb == ee);
    assert(dd - ee == (p + 1) * (p + 1) * jb);
    assert(cc == xx - xa + jb);
    assert(p * (0 - m) == 0 - p * xa + p * (2 + p) * jb) by (nonlinear_arith)
        requires
            m == xa - jb * (2 + p),
    ;
    assert((p + 1) * (p + 1) == 1 + p * (2 + p)) by (nonlinear_arith);
    assert(aa - bb == cc + p * (0 - m)) by (nonlinear_arith)
        requires
            aa == xx - (p + 1) * xa + dd,
            bb == ee,
            dd - ee == (p + 1) * (p + 1) * jb,
            cc == xx - xa + jb,
            p * (0 - m) == 0 - p * xa + p * (2 + p) * jb,
            (p + 1) * (p + 1) == 1 + p * (2 + p),
    ;
    lemma_fm_shift((x - j) * (x - (n - 1 - j)), 0 - m);
}

/// `prod_[a, a + 1) == x - a`.
pub proof fn lemma_range_prod_one(x: nat, a: int)
    ensures
        range_prod(x, a, a + 1) == fm(x - a),
{
    assert(range_prod(x, a, a) == 1);
    lemma_fm_bound(x - a);
    lemma_fmul_one(fm(x - a));
}

/// Widening `[lo, hi)` to `[lo - 1, hi + 1)` multiplies the product that
/// skips `t` by the new factors other than `t`'s.
pub proof fn lemma_skip_step(x: nat, lo: int, hi: int, t: int)
    requires
        lo <= hi,
    ensures
        t != lo - 1 && t != hi ==> range_prod_skip(x, lo - 1, hi + 1, t) == fmul(
            range_prod_skip(x, lo, hi, t),
            fmul(fm(x - (lo - 1)), fm(x - hi)),
        ),
        t == lo - 1 ==> range_prod_skip(x, lo - 1, hi + 1, t) == fmul(range_prod_skip(x, lo, hi, t), fm(x - hi)),
        t == hi ==> range_prod_skip(x, lo - 1, hi + 1, t) == fmul(range_prod_skip(x, lo, hi, t), fm(x - (lo - 1))),
{
    let a = fm(x - (lo - 1));
    let b = fm(x - hi);
    lemma_fm_bound(x - (lo - 1));
    lemma_fm_bound(x - hi);
    if lo <= t < hi {
        let r1 = range_prod(x, lo, t);
        let r2 = range_prod(x, t + 1, hi);
        lemma_range_prod_lt(x, lo, t);
        lemma_range_prod_lt(x, t + 1, hi);
        lemma_range_prod_low(x, lo - 1, t);
        assert(range_prod(x, t + 1, hi + 1) == fmul(r2, b));
        lemma_fmul4(a, r2, b, r1);
        lemma_fmul4(r1, r2, a, b);
        assert(a * r2 * b * r1 == r1 * r2 * a * b) by (nonlinear_arith);
    } else if t == lo - 1 {
        assert(range_prod(x, lo - 1, lo - 1) == 1);
        lemma_range_prod_lt(x, lo, hi + 1);
        lemma_fmul_one(range_prod(x, lo, hi + 1));
    } else if t == hi {
        assert(range_prod(x, hi + 1, hi + 1) == 1);
        lemma_range_prod_lt(x, lo - 1, hi);
        lemma_range_prod_lt(x, lo, hi);
        lemma_fmul_one(range_prod(x, lo - 1, hi));
        lemma_range_prod_low(x, lo - 1, hi);
        crate::field::lemma_fmul_comm(a, range_prod(x, lo, hi));
    } else {
        lemma_range_prod_lt(x, lo, hi);
        if lo < hi {
            lemma_range_prod_ends(x, lo - 1, hi + 1);
        } else {
            assert(range_prod(x, lo, hi) == 1);
            lemma_range_prod_low(x, lo - 1, hi + 1);
            lemma_range_prod_one(x, hi);
            lemma_fmul_one(fmul(a, b));
            crate::field::lemma_fmul_comm(a, b);
            lemma_fmul3(a, b, 1);
        }
        lemma_fmul3(a, b, range_prod(x, lo, hi));
        crate::field::lemma_fmul_comm(fmul(a, b), range_prod(x, lo, hi));
    }
}

/// The center shift of an odd range `2l + 1` is `x - l`.
pub proof fn lemma_center_odd(x: nat, l: nat)
    requires
        x < field_modulus(),
    ensures
        center_shift(x, 2 * l + 1) == fm(x - l),
{
    lemma_center_shift(x, 2 * l + 1);
    let p = field_modulus() as int;
    assert(two_inv() * (2 * l) == l + p * l) by (nonlinear_arith)
        requires
            2 * two_inv() == p + 1,
    ;
    lemma_fm_shift(x - l, 0 - l);
    assert(x - two_inv() * (2 * l + 1 - 1) == (x - l) + p * (0 - l));
}

/// The product over `[0, n)` skipping one end `t` of the pair `{lo, hi}`
/// is the other end's factor times the products inside and outside the pair.
pub proof fn lemma_skip_by_pair(x: nat, n: int, lo: int, hi: int, t: int)
    requires
        0 <= lo < hi < n,
        t == lo || t == hi,
    ensures
        range_prod_skip(x, 0, n, t) == fmul(
            fm(x - (if t == lo { hi } else { lo })),
            fmul(range_prod(x, lo + 1, hi), fmul(range_prod(x, 0, lo), range_prod(x, hi + 1, n))),
        ),
{
    let r0 = range_prod(x, 0, lo);
    let rin = range_prod(x, lo + 1, hi);
    let rout = range_prod(x, hi + 1, n);
    let a = fm(x - lo);
    let b = fm(x - hi);
    lemma_range_prod_lt(x, 0, lo);
    lemma_range_prod_lt(x, lo + 1, hi);
    lemma_range_prod_lt(x, hi + 1, n);
    lemma_fm_bound(x - lo);
    lemma_fm_bound(x - hi);
    lemma_fmul4(rin, r0, rout, 1);
    lemma_fmul_one(fmul(r0, rout));
    lemma_fm_bound((rin * r0 * rout) as int);
    lemma_fmul_one(rin);
    lemma_fmul_one(r0);
    lemma_fmul_one(rout);
    crate::field::lemma_fm_canonical(rin as int);
    crate::field::lemma_fm_canonical(r0 as int);
    crate::field::lemma_fm_canonical(rout as int);
    lemma_fmul_fm(r0 as int, rout as int);
    lemma_fmul_fm(rin as int, (r0 * rout) as int);
    assert(rin * (r0 * rout) == rin * r0 * rout) by (nonlinear_arith);
    let inner_outer = fmul(rin, fmul(r0, rout));
    assert(inner_outer == fm((rin * r0 * rout) as int));
    if t == lo {
        // [lo + 1, n) == [lo + 1, hi) * (x - hi) * [hi + 1, n)
        lemma_range_prod_split(x, lo + 1, hi + 1, n);
        assert(range_prod(x, lo + 1, hi + 1) == fmul(rin, b));
        lemma_fmul3(rin, b, rout);
        lemma_fmul_fm(r0 as int, (rin * b * rout) as int);
        lemma_fmul_fm(b as int, (rin * r0 * rout) as int);
        crate::field::lemma_fm_canonical(b as int);
        assert(r0 * (rin * b * rout) == b * (rin * r0 * rout)) by (nonlinear_arith);
    } else {
        // [0, hi) == [0, lo) * (x - lo) * [lo + 1, hi)
        lemma_range_prod_split(x, 0, lo, hi);
        lemma_range_prod_low(x, lo, hi);
        lemma_fmul3(r0, a, rin);
        lemma_fmul_fm((r0 * a * rin) as int, rout as int);
        lemma_fmul_fm(a as int, (rin * r0 * rout) as int);
        crate::field::lemma_fm_canonical(a as int);
        assert(r0 * a * rin * rout == a * (rin * r0 * rout)) by (nonlinear_arith);
    }
}

/// The product outside `[a, b)` grows, as `[a, b)` shrinks by one on each
/// side, by the two factors at its inner ends.
pub proof fn lemma_outer_grow(x: nat, a: int, b: int, n: int)
    requires
        0 <= a < b <= n,
    ensures
        fmul(range_prod(x, 0, a + 1), range_prod(x, b - 1, n)) == fmul(
            fmul(range_prod(x, 0, a), range_prod(x, b, n)),
            fmul(fm(x - a), fm(x - (b - 1))),
        ),
{
    let pa = range_prod(x, 0, a);
    let pb = range_prod(x, b, n);
    let fa = fm(x - a);
    let fb = fm(x - (b - 1));
    lemma_range_prod_low(x, b - 1, n);
    lemma_range_prod_lt(x, 0, a);
    lemma_range_prod_lt(x, b, n);
    lemma_fm_bound(x - a);
    lemma_fm_bound(x - (b - 1));
    lemma_fmul4(pa, fa, fb, pb);
    lemma_fmul4(pa, pb, fa, fb);
    assert(pa * fa * fb * pb == pa * pb * fa * fb) by (nonlinear_arith);
}

/// A product over a range that holds `s` vanishes in `s`.
pub proof fn lemma_range_prod_zero(s: nat, lo: int, hi: int)
    requires
        lo <= s < hi,
    ensures
        range_prod(s, lo, hi) == 0,
    decreases hi - lo,
{
    lemma_range_prod_lt(s, lo, hi - 1);
    lemma_fm_bound(s - (hi - 1));
    if s == hi - 1 {
        assert(fm(0) == 0);
        assert(range_prod(s, lo, hi - 1) * 0 == 0);
    } else {
        lemma_range_prod_zero(s, lo, hi - 1);
        assert(0 * fm(s - (hi - 1)) == 0);
    }
}

/// The product that skips `t`, taken in `t` itself, is the residue of
/// `prod_{j != t} (t - j)`.
pub proof fn lemma_skip_at_self(t: nat, n: int)
    requires
        t < field_modulus(),
    ensures
        range_prod_skip(t, 0, n, t as int) == fm(lagrange_prod_int(t as int, n)),
    decreases n,
{
    if n <= 0 {
        assert(range_prod(t, 0, n) == 1);
        lemma_fm_canonical(1);
    } else {
        lemma_skip_at_self(t, n - 1);
        let prev = range_prod_skip(t, 0, n - 1, t as int);
        if n - 1 == t {
            assert(range_prod(t, t + 1int, n) == 1);
            lemma_range_prod_lt(t, 0, t as int);
            lemma_fmul_one(range_prod(t, 0, t as int));
        } else if n - 1 > t {
            lemma_range_prod_lt(t, 0, t as int);
            lemma_range_prod_lt(t, t + 1int, n - 1);
            lemma_fm_bound(t - (n - 1));
            crate::field::lemma_fmul_assoc(range_prod(t, 0, t as int), range_prod(t, t + 1int, n - 1), fm(t - (n - 1)));
            lemma_fmul_fm(lagrange_prod_int(t as int, n - 1), t - (n - 1));
        } else {
            lemma_fmul_fm(lagrange_prod_int(t as int, n - 1), t - (n - 1));
        }
    }
}

/// The product over `[0, n)` that skips `t` vanishes in the other points
/// of the range.
pub proof fn lemma_skip_at_other(s: nat, t: int, n: int)
    requires
        0 <= s < n,
        0 <= t < n,
        s != t,
    ensures
        range_prod_skip(s, 0, n, t) == 0,
{
    if s < t {
        lemma_range_prod_zero(s, 0, t);
        assert(0 * range_prod(s, t + 1, n) == 0);
    } else {
        lemma_range_prod_zero(s, t + 1, n);
        assert(range_prod(s, 0, t) * 0 == 0);
    }
}

} // verus!
