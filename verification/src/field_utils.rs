//! Field helpers the circuits rely on: multiplication by small integers,
//! powers of one half, squares of halves, and inverted Lagrange denominators.

use vstd::prelude::*;
use crate::field::{Fe, fadd, fsub, fmul, fm, field_modulus, is_inverse, lemma_fadd_fm, lemma_fsub_fm, lemma_fmul_fm, lemma_fneg_fm, lemma_fm_canonical};

verus! {

/// Multiples of `x`: `a` is `k * x` in the field.
pub open spec fn is_multiple(a: nat, k: int, x: int) -> bool {
    a == fm(k * x)
}

proof fn lemma_add_multiples(a: nat, b: nat, k: int, j: int, x: int)
    requires
        is_multiple(a, k, x),
        is_multiple(b, j, x),
    ensures
        is_multiple(fadd(a, b), k + j, x),
{
    lemma_fadd_fm(k * x, j * x);
    assert(k * x + j * x == (k + j) * x) by (nonlinear_arith);
}

proof fn lemma_sub_multiples(a: nat, b: nat, k: int, j: int, x: int)
    requires
        is_multiple(a, k, x),
        is_multiple(b, j, x),
    ensures
        is_multiple(fsub(a, b), k - j, x),
{
    lemma_fsub_fm(k * x, j * x);
    assert(k * x - j * x == (k - j) * x) by (nonlinear_arith);
}

/// The inverse of two.
pub open spec fn two_inv() -> nat {
    (field_modulus() + 1) / 2
}

/// `b^e` in the field.
pub open spec fn fpow(b: nat, e: nat) -> nat
    decreases e,
{
    if e == 0 {
        fm(1)
    } else {
        fmul(fpow(b, (e - 1) as nat), b)
    }
}

/// `(k / 2)^2` in the field.
pub open spec fn half_square_val(k: nat) -> nat {
    fmul(fmul(two_inv(), k), fmul(two_inv(), k))
}

/// `prod_{i < n, i != k} (k - i)`, over the integers.
pub open spec fn lagrange_prod_int(k: int, n: int) -> int
    decreases n,
{
    if n <= 0 {
        1
    } else if n - 1 == k {
        lagrange_prod_int(k, n - 1)
    } else {
        lagrange_prod_int(k, n - 1) * (k - (n - 1))
    }
}

/// Field helpers of an element type.
pub trait FieldUtils: Sized {
    /// The canonical value of the element.
    spec fn fu_val(&self) -> nat;

    /// Multiplies by a small scalar.
    fn scale(&self, scale: u64) -> (r: Self)
        ensures
            r.fu_val() == fmul(self.fu_val(), scale as nat),
    ;

    /// `(1/2)^power`.
    fn half_pow(power: u64) -> (r: Self)
        ensures
            r.fu_val() == fpow(two_inv(), power as nat),
    ;

    /// `(k/2)^2`, for the `k` that the precomputed table covers.
    fn half_square(k: u64) -> (r: Self)
        requires
            k < 50,
        ensures
            r.fu_val() == half_square_val(k as nat),
    ;

    /// `1 / prod_{i < n, i != k} (k - i)`, for the `(k, n)` that the
    /// precomputed table covers.
    fn inv_lagrange_prod(k: u64, n: u64) -> (r: Self)
        requires
            2 <= n < 30,
            k < n,
        ensures
            is_inverse(fm(lagrange_prod_int(k as int, n as int)), r.fu_val()),
    ;
}

/// `1/2`.
pub fn two_inv_fe() -> (r: Fe)
    ensures
        r.val() == two_inv(),
{
    let two = Fe::from_u64(2);
    let r = two.invert().unwrap();
    proof { r.lemma_val_lt(); }
    proof {
        let m = field_modulus() as int;
        let v = r.val() as int;
        assert(fmul(2, r.val()) == 1);
        assert((2 * v) % m == 1);
        // 2v < 2m, so 2v is 1 or m + 1; it is odd, so it is m + 1.
        vstd::arithmetic::div_mod::lemma_fundamental_div_mod(2 * v, m);
        let q = (2 * v) / m;
        assert(0 <= q < 2) by {
            vstd::arithmetic::div_mod::lemma_div_pos_is_pos(2 * v, m);
            vstd::arithmetic::div_mod::lemma_div_is_ordered(2 * v, 2 * m - 1, m);
            vstd::arithmetic::div_mod::lemma_div_plus_one(m - 1, m);
        }
        if q == 0 {
            assert(2 * v == 1);
        } else {
            assert(2 * v == m + 1);
        }
    }
    r
}

/// `scale * x` for a scalar up to 15, by an addition chain.
fn scale_small(x: &Fe, scale: u64, Ghost(xv): Ghost<int>) -> (r: Fe)
    requires
        scale <= 15,
        xv == x.val(),
    ensures
        r.val() == fmul(x.val(), scale as nat),
{
    let x = *x;
    proof {
        x.lemma_val_lt();
        lemma_fm_canonical(xv);
        assert(is_multiple(x.val(), 1, xv));
    }
    proof {
        lemma_fm_canonical(scale as int);
        lemma_fmul_fm(xv, scale as int);
        assert(scale as int * xv == xv * scale as int) by (nonlinear_arith);
        lemma_add_multiples(x.val(), x.val(), 1, 1, xv);
    }
    let r = if scale == 0 {
        proof {
            lemma_fm_canonical(0);
        }
        Fe::zero()
    } else if scale == 1 {
        x
    } else if scale == 2 {
        x.double()
    } else if scale == 3 {
        let y = x.double();
        proof { lemma_add_multiples(y.val(), x.val(), 2, 1, xv); }
        y.add(&x)
    } else if scale == 4 {
        let y = x.double();
        proof { lemma_add_multiples(y.val(), y.val(), 2, 2, xv); }
        y.double()
    } else if scale == 5 {
        let y2 = x.double();
        proof { lemma_add_multiples(y2.val(), y2.val(), 2, 2, xv); }
        let y = y2.double();
        proof { lemma_add_multiples(y.val(), x.val(), 4, 1, xv); }
        y.add(&x)
    } else if scale == 6 {
        let x2 = x.double();
        proof { lemma_add_multiples(x2.val(), x2.val(), 2, 2, xv); }
        let y = x2.double();
        proof { lemma_add_multiples(y.val(), x2.val(), 4, 2, xv); }
        y.add(&x2)
    } else if scale == 7 {
        let y8 = eight_times(&x, Ghost(xv));
        proof { lemma_sub_multiples(y8.val(), x.val(), 8, 1, xv); }
        y8.sub(&x)
    } else if scale == 8 {
        eight_times(&x, Ghost(xv))
    } else if scale == 9 {
        let y8 = eight_times(&x, Ghost(xv));
        proof { lemma_add_multiples(y8.val(), x.val(), 8, 1, xv); }
        y8.add(&x)
    } else if scale == 10 {
        let x2 = x.double();
        proof { lemma_add_multiples(x2.val(), x2.val(), 2, 2, xv); }
        let x4 = x2.double();
        proof { lemma_add_multiples(x4.val(), x4.val(), 4, 4, xv); }
        let y = x4.double();
        proof { lemma_add_multiples(y.val(), x2.val(), 8, 2, xv); }
        y.add(&x2)
    } else if scale == 11 {
        let x2 = x.double();
        proof { lemma_add_multiples(x2.val(), x2.val(), 2, 2, xv); }
        let y = x2.double();
        proof { lemma_add_multiples(y.val(), y.val(), 4, 4, xv); }
        let y8 = y.double();
        proof { lemma_add_multiples(y8.val(), y.val(), 8, 4, xv); }
        let t = y8.add(&y);
        proof { lemma_sub_multiples(t.val(), x.val(), 12, 1, xv); }
        t.sub(&x)
    } else if scale == 12 {
        let x2 = x.double();
        proof { lemma_add_multiples(x2.val(), x2.val(), 2, 2, xv); }
        let y = x2.double();
        proof { lemma_add_multiples(y.val(), y.val(), 4, 4, xv); }
        let y8 = y.double();
        proof { lemma_add_multiples(y8.val(), y.val(), 8, 4, xv); }
        y8.add(&y)
    } else if scale == 13 {
        let x2 = x.double();
        proof { lemma_add_multiples(x2.val(), x2.val(), 2, 2, xv); }
        let y = x2.double();
        proof { lemma_add_multiples(y.val(), y.val(), 4, 4, xv); }
        let y8 = y.double();
        proof { lemma_add_multiples(y8.val(), y.val(), 8, 4, xv); }
        let t = y8.add(&y);
        proof { lemma_add_multiples(t.val(), x.val(), 12, 1, xv); }
        t.add(&x)
    } else if scale == 14 {
        let x2 = x.double();
        let y16 = eight_times(&x2, Ghost(2 * xv));
        proof {
            assert(8 * (2 * xv) == 16 * xv);
            assert(2 * (2 * xv) == 4 * xv);
            assert(1 * (2 * xv) == 2 * xv);
            lemma_sub_multiples(y16.val(), x2.val(), 16, 2, xv);
        }
        y16.sub(&x2)
    } else {
        let y8 = eight_times(&x, Ghost(xv));
        proof { lemma_add_multiples(y8.val(), y8.val(), 8, 8, xv); }
        let y16 = y8.double();
        proof { lemma_sub_multiples(y16.val(), x.val(), 16, 1, xv); }
        y16.sub(&x)
    };
    r
}

/// `scale * x` by double-and-add over the bits of the scalar.
#[verifier::spinoff_prover]
#[verifier::rlimit(60)]
fn scale_large(x0: &Fe, scale: u64, Ghost(xv): Ghost<int>) -> (r: Fe)
    requires
        xv == x0.val(),
    ensures
        r.val() == fmul(x0.val(), scale as nat),
{
    proof {
        x0.lemma_val_lt();
        lemma_fm_canonical(xv);
        assert(is_multiple(x0.val(), 1, xv));
    }
    let mut x = *x0;
    let mut acc = Fe::zero();
    let mut s = scale;
    let ghost mut p: int = 1;
    let ghost mut low: int = 0;
    proof {
        lemma_fm_canonical(0);
        assert(is_multiple(acc.val(), 0, xv));
    }
    while s > 0
        invariant
            scale as int == s as int * p + low,
            p >= 1,
            low >= 0,
            is_multiple(acc.val(), low, xv),
            is_multiple(x.val(), p, xv),
        decreases s,
    {
        let bit = s % 2;
        if bit == 1 {
            proof {
                lemma_add_multiples(acc.val(), x.val(), low, p, xv);
            }
            acc = acc.add(&x);
            proof {
                low = low + p;
            }
        }
        proof {
            lemma_add_multiples(x.val(), x.val(), p, p, xv);
        }
        x = x.double();
        let s0: u64 = s;
        s = s >> 1;
        proof {
            assert(s0 >> 1u64 == s0 / 2) by (bit_vector);
            assert(s0 as int == 2 * (s as int) + bit as int);
            assert(s0 as int * p == s as int * (p + p) + bit as int * p) by (nonlinear_arith)
                requires
                    s0 as int == 2 * (s as int) + bit as int,
            ;
            p = p + p;
        }
    }
    proof {
        assert(low == scale as int);
        assert(acc.val() == fm(scale as int * xv));
        lemma_fmul_fm(xv, scale as int);
        lemma_fm_canonical(scale as int);
        assert(scale as int * xv == xv * scale as int) by (nonlinear_arith);
    }
    acc
}

impl FieldUtils for Fe {
    open spec fn fu_val(&self) -> nat {
        self.val()
    }

    /// Addition chains for the small scalars, double-and-add above 15.
    fn scale(&self, scale: u64) -> (r: Fe) {
        proof { self.lemma_val_lt(); }
        let ghost xv = self.val() as int;
        let r = if scale > 15 {
            scale_large(self, scale, Ghost(xv))
        } else {
            scale_small(self, scale, Ghost(xv))
        };
        assert(r.fu_val() == r.val());
        assert(self.fu_val() == self.val());
        r
    }

    fn half_pow(power: u64) -> (r: Fe) {
        let h = two_inv_fe();
        let mut acc = Fe::one();
        let mut i: u64 = 0;
        proof {
            lemma_fm_canonical(1);
        }
        while i < power
            invariant
                i <= power,
                h.val() == two_inv(),
                acc.val() == fpow(two_inv(), i as nat),
            decreases power - i,
        {
            acc = acc.mul(&h);
            i = i + 1;
        }
        acc
    }

    fn half_square(k: u64) -> (r: Fe) {
        let h = two_inv_fe();
        let t = h.scale(k);
        t.square()
    }

    fn inv_lagrange_prod(k: u64, n: u64) -> (r: Fe) {
        let mut acc = Fe::one();
        let mut i: u64 = 0;
        proof {
            lemma_fm_canonical(1);
            vstd::arithmetic::power::lemma_pow0(30);
        }
        while i < n
            invariant
                i <= n,
                2 <= n < 30,
                k < n,
                acc.val() == fm(lagrange_prod_int(k as int, i as int)),
                lagrange_prod_int(k as int, i as int) != 0,
                -vstd::arithmetic::power::pow(30, i as nat) <= lagrange_prod_int(k as int, i as int)
                    <= vstd::arithmetic::power::pow(30, i as nat),
            decreases n - i,
        {
            let ghost before = lagrange_prod_int(k as int, i as int);
            proof {
                vstd::arithmetic::power::lemma_pow_positive(30, i as nat);
                assert(vstd::arithmetic::power::pow(30, (i + 1) as nat) == 30 * vstd::arithmetic::power::pow(30, i as nat)) by {
                    reveal(vstd::arithmetic::power::pow);
                }
            }
            if i != k {
                let d = felt_from_diff(k, i);
                proof {
                    lemma_fmul_fm(before, k as int - i as int);
                    let pw = vstd::arithmetic::power::pow(30, i as nat);
                    let f = k as int - i as int;
                    assert(-30 * pw <= before * f <= 30 * pw && before * f != 0) by (nonlinear_arith)
                        requires
                            -pw <= before <= pw,
                            before != 0,
                            -30 < f < 30,
                            f != 0,
                    ;
                }
                acc = acc.mul(&d);
            } else {
                proof {
                    let pw = vstd::arithmetic::power::pow(30, i as nat);
                    assert(-30 * pw <= before <= 30 * pw) by (nonlinear_arith)
                        requires -pw <= before <= pw, pw > 0;
                }
            }
            i = i + 1;
        }
        proof {
            // The product is a nonzero integer smaller than the modulus in absolute value.
            let v = lagrange_prod_int(k as int, n as int);
            lemma_pow30_small(n as nat);
            lemma_small_nonzero_residue(v);
        }
        acc.invert().unwrap()
    }
}

/// `30^n` is far below the modulus for the table's sizes.
proof fn lemma_pow30_small(n: nat)
    requires
        n < 30,
    ensures
        vstd::arithmetic::power::pow(30, n) < field_modulus(),
{
    vstd::arithmetic::power::lemma_pow_increases(30, n, 30);
    assert(vstd::arithmetic::power::pow(30, 30) < field_modulus()) by {
        reveal_with_fuel(vstd::arithmetic::power::pow, 31);
    }
}

/// A nonzero integer of absolute value below the modulus has a nonzero residue.
proof fn lemma_small_nonzero_residue(v: int)
    requires
        v != 0,
        -(field_modulus() as int) < v < field_modulus(),
    ensures
        fm(v) != 0,
{
    let m = field_modulus() as int;
    if v > 0 {
        vstd::arithmetic::div_mod::lemma_small_mod(v as nat, m as nat);
    } else {
        vstd::arithmetic::div_mod::lemma_fundamental_div_mod(v, m);
        vstd::arithmetic::div_mod::lemma_mod_bound(v, m);
        if v % m == 0 {
            assert(v == m * (v / m));
            if v / m >= 0 {
                assert(m * (v / m) >= 0) by (nonlinear_arith)
                    requires m > 0, v / m >= 0;
            } else {
                assert(m * (v / m) <= -m) by (nonlinear_arith)
                    requires m > 0, v / m < 0;
            }
        }
    }
}

/// `8 * x`, by three doublings.
fn eight_times(x: &Fe, xv: Ghost<int>) -> (r: Fe)
    requires
        is_multiple(x.val(), 1, xv@),
    ensures
        is_multiple(r.val(), 8, xv@),
{
    proof { lemma_add_multiples(x.val(), x.val(), 1, 1, xv@); }
    let y2 = x.double();
    proof { lemma_add_multiples(y2.val(), y2.val(), 2, 2, xv@); }
    let y4 = y2.double();
    proof { lemma_add_multiples(y4.val(), y4.val(), 4, 4, xv@); }
    y4.double()
}

/// The signed difference `k - i` as a field element.
fn felt_from_diff(k: u64, i: u64) -> (r: Fe)
    ensures
        r.val() == fm(k as int - i as int),
{
    if k >= i {
        proof {
            lemma_fm_canonical(k as int - i as int);
        }
        Fe::from_u64(k - i)
    } else {
        let a = Fe::from_u64(i - k);
        proof {
            lemma_fm_canonical(i as int - k as int);
            lemma_fneg_fm(i as int - k as int);
        }
        a.neg()
    }
}

} // verus!
