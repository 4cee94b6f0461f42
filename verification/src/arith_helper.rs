//! Small arithmetic helpers: ceiling logarithms, polynomial evaluation,
//! Jacobian to affine coordinates, shifts by 64 bits and bit decompositions.

use vstd::prelude::*;
use vstd::arithmetic::power2::pow2;
use crate::field::{Fe, fadd, fmul, fm, finv, is_inverse, vals, field_modulus, lemma_finv_unique, lemma_fm_canonical, lemma_fmul_fm, lemma_fadd_fm};

verus! {

/// The `k` with `2^(k-1) < x <= 2^k`; `x` must be positive.
pub fn log2_ceil(x: usize) -> (r: usize)
    requires
        x > 0,
    ensures
        r == 0 ==> x == 1,
        r > 0 ==> pow2((r - 1) as nat) < x <= pow2(r as nat),
        r <= 64,
{
    let mut p: u128 = 1;
    let mut ret: usize = 0;
    proof {
        vstd::arithmetic::power2::lemma2_to64();
        vstd::arithmetic::power2::lemma_pow2_pos(0);
    }
    while p < x as u128
        invariant
            0 < x,
            ret <= 64,
            p == pow2(ret as nat),
            ret > 0 ==> pow2((ret - 1) as nat) < x,
        decreases 64 - ret,
    {
        proof {
            vstd::arithmetic::power2::lemma_pow2_unfold((ret + 1) as nat);
            vstd::arithmetic::power2::lemma2_to64();
            if ret >= 64 {
                vstd::arithmetic::power2::lemma_pow2_strictly_increases(64, ret as nat);
                assert(x <= usize::MAX);
                assert(false);
            }
        }
        p = p * 2;
        ret = ret + 1;
    }
    ret
}

/// The value of the polynomial with coefficients `c` (lowest first) in `x`.
pub open spec fn poly_eval(c: Seq<nat>, x: nat) -> nat
    decreases c.len(),
{
    if c.len() == 0 {
        0
    } else {
        fadd(c[0], fmul(x, poly_eval(c.drop_first(), x)))
    }
}

/// `sum_i c[i] * x^i` over the integers.
pub open spec fn power_sum(c: Seq<nat>, x: int) -> int
    decreases c.len(),
{
    if c.len() == 0 {
        0
    } else {
        power_sum(c.drop_last(), x) + c.last() * vstd::arithmetic::power::pow(x, (c.len() - 1) as nat)
    }
}

/// The power sum peeled from the front: `c[0] + x * sum_i c[i + 1] x^i`.
proof fn lemma_power_sum_front(c: Seq<nat>, x: int)
    requires
        c.len() > 0,
    ensures
        power_sum(c, x) == c[0] + x * power_sum(c.drop_first(), x),
    decreases c.len(),
{
    let n = c.len();
    if n == 1 {
        assert(c.drop_first().len() == 0);
        assert(c.drop_last().len() == 0);
        assert(vstd::arithmetic::power::pow(x, 0) == 1) by {
            vstd::arithmetic::power::lemma_pow0(x);
        }
        assert(c.last() * 1 == c.last());
        assert(x * 0 == 0) by (nonlinear_arith);
        assert(c.last() == c[0]);
        assert(power_sum(c.drop_last(), x) == 0);
        assert(power_sum(c.drop_first(), x) == 0);
        assert(power_sum(c, x) == power_sum(c.drop_last(), x) + c.last() * vstd::arithmetic::power::pow(x, 0));
    } else {
        let dl = c.drop_last();
        let df = c.drop_first();
        lemma_power_sum_front(dl, x);
        assert(dl.drop_first() =~= df.drop_last());
        assert(df.last() == c.last());
        assert(dl[0] == c[0]);
        let pn = vstd::arithmetic::power::pow(x, (n - 1) as nat);
        let pm = vstd::arithmetic::power::pow(x, (n - 2) as nat);
        assert(pn == x * pm) by {
            vstd::arithmetic::power::lemma_pow_adds(x, 1, (n - 2) as nat);
            vstd::arithmetic::power::lemma_pow1(x);
        }
        let a = power_sum(df.drop_last(), x);
        let l = c.last() as int;
        assert(x * (a + l * pm) == x * a + l * (x * pm)) by (nonlinear_arith);
        assert(power_sum(c, x) == power_sum(dl, x) + l * pn);
        assert(power_sum(dl, x) == c[0] + x * a);
        assert(power_sum(df, x) == a + l * pm);
    }
}

/// Horner's rule evaluates the polynomial: `poly_eval(c, x)` is
/// `sum_i c[i] x^i` reduced modulo the field's modulus.
pub proof fn law_poly_eval_power_sum(c: Seq<nat>, x: nat)
    requires
        x < crate::field::field_modulus(),
        forall|i: int| 0 <= i < c.len() ==> #[trigger] c[i] < crate::field::field_modulus(),
    ensures
        poly_eval(c, x) == crate::field::fm(power_sum(c, x as int)),
    decreases c.len(),
{
    if c.len() == 0 {
        crate::field::lemma_fm_canonical(0);
    } else {
        let df = c.drop_first();
        law_poly_eval_power_sum(df, x);
        lemma_power_sum_front(c, x as int);
        let s = power_sum(df, x as int);
        crate::field::lemma_fm_canonical(x as int);
        crate::field::lemma_fm_canonical(c[0] as int);
        crate::field::lemma_fmul_fm(x as int, s);
        crate::field::lemma_fadd_fm(c[0] as int, x * s);
    }
}

/// Evaluates the polynomial with coefficients `poly` (lowest first) in `x`,
/// by Horner's rule.
pub fn ev(poly: &Vec<Fe>, x: Fe) -> (r: Fe)
    ensures
        r.val() == poly_eval(vals(poly@), x.val()),
{
    let ghost c = vals(poly@);
    let mut ret = Fe::zero();
    let l = poly.len();
    let mut i: usize = 0;
    proof {
        assert(c.skip(l as int) =~= Seq::<nat>::empty());
    }
    while i < l
        invariant
            l == poly@.len(),
            c == vals(poly@),
            i <= l,
            ret.val() == poly_eval(c.skip(l - i), x.val()),
        decreases l - i,
    {
        let ghost prev = ret.val();
        ret = ret.mul(&x);
        ret = ret.add(&poly[l - i - 1]);
        proof {
            let s = c.skip(l - i - 1);
            assert(s.drop_first() =~= c.skip(l - i));
            assert(s[0] == c[l - i - 1]);
            crate::field::lemma_fmul_comm(prev, x.val());
        }
        i = i + 1;
    }
    proof {
        assert(c.skip(0) =~= c);
    }
    ret
}

/// Converts a point in Jacobian coordinates `(x, y, z)`, `z` nonzero, to
/// affine coordinates `(x / z^2, y / z^3)`.
pub fn j2a(pt: (Fe, Fe, Fe)) -> (r: (Fe, Fe))
    requires
        pt.2.val() != 0,
    ensures
        r.0.val() == fmul(pt.0.val(), fmul(finv(pt.2.val()), finv(pt.2.val()))),
        r.1.val() == fmul(pt.1.val(), fmul(fmul(finv(pt.2.val()), finv(pt.2.val())), finv(pt.2.val()))),
{
    let zi = pt.2.invert().unwrap();
    proof {
        pt.2.lemma_val_lt();
        zi.lemma_val_lt();
        lemma_finv_unique(pt.2.val(), zi.val());
    }
    let zisq = zi.square();
    let zicb = zisq.mul(&zi);
    (pt.0.mul(&zisq), pt.1.mul(&zicb))
}

/// `2^64 * x`, by 64 doublings.
pub fn shift64(x: Fe) -> (r: Fe)
    ensures
        r.val() == fm((x.val() * pow2(64)) as int),
{
    let mut y = x;
    let mut k: usize = 0;
    proof {
        x.lemma_val_lt();
        lemma_fm_canonical(x.val() as int);
        vstd::arithmetic::power2::lemma_pow2_pos(0);
        assert(pow2(0) == 1) by {
            vstd::arithmetic::power2::lemma2_to64();
        }
    }
    while k < 64
        invariant
            k <= 64,
            y.val() == fm((x.val() * pow2(k as nat)) as int),
        decreases 64 - k,
    {
        let ghost a = x.val() * pow2(k as nat);
        y = y.double();
        proof {
            lemma_fadd_fm(a as int, a as int);
            vstd::arithmetic::power2::lemma_pow2_unfold((k + 1) as nat);
            assert(x.val() * pow2((k + 1) as nat) == a + a) by (nonlinear_arith)
                requires
                    pow2((k + 1) as nat) == 2 * pow2(k as nat),
                    a == x.val() * pow2(k as nat),
            ;
        }
        k = k + 1;
    }
    y
}

/// The number of binary digits of `n`.
pub open spec fn num_bits(n: nat) -> nat
    decreases n,
{
    if n == 0 {
        0
    } else {
        1 + num_bits(n / 2)
    }
}

/// The little-endian binary digits of `n`, without leading zeros.
pub fn bits_le(n: usize) -> (r: Vec<u64>)
    ensures
        r@.len() == num_bits(n as nat),
        forall|i: int| 0 <= i < r@.len() ==> #[trigger] r@[i] == (n as nat / pow2(i as nat)) % 2,
{
    let mut m = n;
    let mut bits: Vec<u64> = Vec::new();
    proof {
        vstd::arithmetic::power2::lemma2_to64();
        assert(pow2(bits@.len()) == 1);
        assert(n as nat / 1 == n as nat);
    }
    while m > 0
        invariant
            m == n as nat / pow2(bits@.len()),
            num_bits(n as nat) == bits@.len() + num_bits(m as nat),
            forall|i: int| 0 <= i < bits@.len() ==> #[trigger] bits@[i] == (n as nat / pow2(i as nat)) % 2,
        decreases m,
    {
        let b = (m as u64) & 1;
        proof {
            let mm = m as u64;
            assert(mm & 1 == mm % 2) by (bit_vector);
            assert(m >> 1 == m / 2) by (bit_vector);
            vstd::arithmetic::power2::lemma_pow2_pos(bits@.len());
            vstd::arithmetic::div_mod::lemma_div_denominator(n as int, pow2(bits@.len()) as int, 2);
            vstd::arithmetic::power2::lemma_pow2_unfold((bits@.len() + 1) as nat);
            assert(pow2(bits@.len()) * 2 == pow2((bits@.len() + 1) as nat));
        }
        bits.push(b);
        m = m >> 1;
    }
    bits
}

} // verus!
