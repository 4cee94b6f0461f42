//! The closed form of the error term: folding the values halves by halves
//! under the challenges weighs value `i` by the product of the challenges of
//! the bits set in `i`; under the challenges `beta^(2^j)` that weight is
//! `beta^i`.

use vstd::prelude::*;
use crate::field::{fadd, fmul, fm, field_modulus, lemma_fm_canonical, lemma_fmul_fm, lemma_fadd_fm, lemma_fmul_comm};
use crate::field_utils::fpow;
use crate::witness::{pow2, fold_step, error_fold};

verus! {

/// `f(lo) + ... + f(hi - 1)` over the integers.
pub open spec fn gsum(f: spec_fn(int) -> int, lo: int, hi: int) -> int
    decreases hi - lo,
{
    if hi <= lo {
        0
    } else {
        gsum(f, lo, hi - 1) + f(hi - 1)
    }
}

/// The weight of index `i < 2^betas.len()`: the product of `betas[j]` over
/// the bits `j` set in `i`.
pub open spec fn bit_weight(i: int, betas: Seq<nat>) -> nat
    decreases betas.len(),
{
    if betas.len() == 0 {
        1
    } else {
        let mid = pow2((betas.len() - 1) as nat) as int;
        if i >= mid {
            fmul(bit_weight(i - mid, betas.drop_last()), betas.last())
        } else {
            bit_weight(i, betas.drop_last())
        }
    }
}

/// `sum_i r[i] * w(i)` over the integers, with the bit weights of `betas`.
pub open spec fn weighted_sum(r: Seq<nat>, betas: Seq<nat>, k: int) -> int {
    gsum(|i: int| r[i] as int * bit_weight(i, betas) as int, 0, k)
}

proof fn lemma_gsum_split(f: spec_fn(int) -> int, lo: int, m: int, hi: int)
    requires
        lo <= m <= hi,
    ensures
        gsum(f, lo, hi) == gsum(f, lo, m) + gsum(f, m, hi),
    decreases hi - m,
{
    if hi > m {
        lemma_gsum_split(f, lo, m, hi - 1);
    }
}

proof fn lemma_gsum_ext(f: spec_fn(int) -> int, g: spec_fn(int) -> int, lo: int, hi: int)
    requires
        forall|i: int| lo <= i < hi ==> #[trigger] f(i) == g(i),
    ensures
        gsum(f, lo, hi) == gsum(g, lo, hi),
    decreases hi - lo,
{
    if hi > lo {
        lemma_gsum_ext(f, g, lo, hi - 1);
    }
}

proof fn lemma_gsum_shift(f: spec_fn(int) -> int, g: spec_fn(int) -> int, d: int, lo: int, hi: int)
    requires
        forall|j: int| #[trigger] g(j) == f(j + d),
    ensures
        gsum(f, lo + d, hi + d) == gsum(g, lo, hi),
    decreases hi - lo,
{
    if hi > lo {
        lemma_gsum_shift(f, g, d, lo, hi - 1);
    }
}

proof fn lemma_gsum_add(f: spec_fn(int) -> int, g: spec_fn(int) -> int, h: spec_fn(int) -> int, lo: int, hi: int)
    requires
        forall|i: int| #[trigger] h(i) == f(i) + g(i),
    ensures
        gsum(h, lo, hi) == gsum(f, lo, hi) + gsum(g, lo, hi),
    decreases hi - lo,
{
    if hi > lo {
        lemma_gsum_add(f, g, h, lo, hi - 1);
    }
}

proof fn lemma_gsum_zero(f: spec_fn(int) -> int, lo: int, hi: int)
    requires
        forall|i: int| lo <= i < hi ==> #[trigger] f(i) == 0,
    ensures
        gsum(f, lo, hi) == 0,
    decreases hi - lo,
{
    if hi > lo {
        lemma_gsum_zero(f, lo, hi - 1);
    }
}

/// Sums of terms with equal residues have equal residues.
proof fn lemma_gsum_mod(f: spec_fn(int) -> int, g: spec_fn(int) -> int, lo: int, hi: int)
    requires
        forall|i: int| lo <= i < hi ==> #[trigger] fm(f(i)) == fm(g(i)),
    ensures
        fm(gsum(f, lo, hi)) == fm(gsum(g, lo, hi)),
    decreases hi - lo,
{
    if hi > lo {
        lemma_gsum_mod(f, g, lo, hi - 1);
        lemma_fadd_fm(gsum(f, lo, hi - 1), f(hi - 1));
        lemma_fadd_fm(gsum(g, lo, hi - 1), g(hi - 1));
    }
}

/// Bit weights are canonical.
proof fn lemma_bit_weight_lt(i: int, betas: Seq<nat>)
    ensures
        bit_weight(i, betas) < field_modulus(),
    decreases betas.len(),
{
    if betas.len() > 0 {
        let mid = pow2((betas.len() - 1) as nat) as int;
        if i < mid {
            lemma_bit_weight_lt(i, betas.drop_last());
        }
    }
}

/// One folded entry, weighted, has the residue of the two entries it
/// combines, each with its own weight.
proof fn lemma_folded_term(a: nat, c: nat, b: nat, w: nat)
    requires
        a < field_modulus(),
        c < field_modulus(),
        w < field_modulus(),
    ensures
        fm(fadd(a, fmul(c, b)) as int * w as int) == fm(a as int * w as int + c as int * fmul(w, b) as int),
{
    let ai = a as int;
    let ci = c as int;
    let bi = b as int;
    let wi = w as int;
    let x = fadd(a, fmul(c, b));
    lemma_fm_canonical(ai);
    lemma_fm_canonical(ci);
    lemma_fm_canonical(wi);
    lemma_fadd_fm(ai, ci * bi);
    assert(x == fm(ai + ci * bi));
    lemma_fm_canonical(x as int);
    lemma_fmul_fm(x as int, wi);
    lemma_fmul_fm(ai + ci * bi, wi);
    lemma_fmul_fm(ci, wi * bi);
    assert(fmul(w, b) == fm(wi * bi));
    assert(fm(ci * fmul(w, b) as int) == fmul(c, fmul(w, b)));
    assert((ai + ci * bi) * wi == ai * wi + ci * (wi * bi)) by (nonlinear_arith);
    lemma_fadd_fm(ai * wi, ci * fmul(w, b) as int);
    lemma_fadd_fm(ai * wi, ci * (wi * bi));
}

/// The closed form, on any length: folding with `betas` gives the residue
/// of the weighted sum of the first `min(len, 2^betas.len())` values.
proof fn lemma_error_fold_sum(r: Seq<nat>, betas: Seq<nat>)
    requires
        forall|i: int| 0 <= i < r.len() ==> #[trigger] r[i] < field_modulus(),
    ensures
        error_fold(r, betas) == fm(weighted_sum(
            r,
            betas,
            if r.len() < pow2(betas.len()) { r.len() as int } else { pow2(betas.len()) as int },
        )),
    decreases betas.len(),
{
    let n = r.len() as int;
    let big_l = betas.len();
    if big_l == 0 {
        assert(pow2(0) == 1);
        if n > 0 {
            assert(gsum(|i: int| r[i] as int * bit_weight(i, betas) as int, 0, 0) == 0);
            assert(r[0] * 1 == r[0]);
            lemma_fm_canonical(r[0] as int);
        }
    } else {
        let mid = pow2((big_l - 1) as nat) as int;
        assert(pow2(big_l) == 2 * mid);
        let b = betas.last();
        let bs = betas.drop_last();
        let r2 = fold_step(r, b, mid as nat);
        assert forall|i: int| 0 <= i < r2.len() implies #[trigger] r2[i] < field_modulus() by {}
        lemma_error_fold_sum(r2, bs);
        let k = if n < 2 * mid { n } else { 2 * mid };
        let k2 = if n < mid { n } else { mid };
        let f = |i: int| r[i] as int * bit_weight(i, betas) as int;
        let g = |i: int| r2[i] as int * bit_weight(i, bs) as int;
        assert(error_fold(r, betas) == error_fold(r2, bs));
        assert(error_fold(r2, bs) == fm(gsum(g, 0, k2)));
        if n <= mid {
            assert forall|i: int| 0 <= i < k2 implies #[trigger] f(i) == g(i) by {
                assert(r2[i] == r[i]);
            }
            lemma_gsum_ext(f, g, 0, k2);
        } else {
            // the upper half, moved down and zero past the end
            let hs = |j: int| if j + mid < n { f(j + mid) } else { 0 };
            let fs = |j: int| f(j + mid);
            lemma_gsum_split(f, 0, mid, k);
            lemma_gsum_shift(f, fs, mid, 0, k - mid);
            lemma_gsum_ext(fs, hs, 0, k - mid);
            lemma_gsum_split(hs, 0, k - mid, mid);
            lemma_gsum_zero(hs, k - mid, mid);
            let sum = |j: int| f(j) + hs(j);
            lemma_gsum_add(f, hs, sum, 0, mid);
            assert forall|j: int| 0 <= j < mid implies #[trigger] fm(g(j)) == fm(sum(j)) by {
                let w = bit_weight(j, bs);
                assert(bit_weight(j, betas) == w);
                if j + mid < n {
                    assert(bit_weight(j + mid, betas) == fmul(w, b));
                    assert(r2[j] == fadd(r[j], fmul(r[j + mid], b)));
                    lemma_bit_weight_lt(j, bs);
                    lemma_folded_term(r[j], r[j + mid], b, w);
                } else {
                    assert(r2[j] == r[j]);
                }
            }
            lemma_gsum_mod(g, sum, 0, mid);
        }
    }
}

/// The error term is the weighted sum of the values: folding `r`, of at
/// most `2^betas.len()` values, under `betas` gives
/// `sum_i r[i] * prod_{bits j of i} betas[j]`.
pub proof fn law_error_fold_is_weighted_sum(r: Seq<nat>, betas: Seq<nat>)
    requires
        forall|i: int| 0 <= i < r.len() ==> #[trigger] r[i] < field_modulus(),
        r.len() <= pow2(betas.len()),
    ensures
        error_fold(r, betas) == fm(weighted_sum(r, betas, r.len() as int)),
{
    lemma_error_fold_sum(r, betas);
}

/// Under the challenges `beta^(2^j)` the bit weight of `i` is `beta^i`.
pub proof fn law_challenge_powers_weigh_by_index(beta: nat, betas: Seq<nat>, i: nat)
    requires
        beta < field_modulus(),
        forall|j: int| 0 <= j < betas.len() ==> #[trigger] betas[j] == fpow(beta, pow2(j as nat)),
        i < pow2(betas.len()),
    ensures
        bit_weight(i as int, betas) == fpow(beta, i),
    decreases betas.len(),
{
    if betas.len() == 0 {
        assert(pow2(0) == 1);
        lemma_fm_canonical(1);
    } else {
        let mid = pow2((betas.len() - 1) as nat);
        let bs = betas.drop_last();
        assert(pow2(betas.len()) == 2 * mid);
        if i >= mid {
            law_challenge_powers_weigh_by_index(beta, bs, (i - mid) as nat);
            crate::run::lemma_fpow_add(beta, (i - mid) as nat, mid);
        } else {
            law_challenge_powers_weigh_by_index(beta, bs, i);
        }
    }
}

/// The error term under the challenges `beta^(2^j)` is `sum_i r[i] beta^i`.
pub proof fn law_error_fold_is_power_sum(r: Seq<nat>, beta: nat, betas: Seq<nat>)
    requires
        forall|i: int| 0 <= i < r.len() ==> #[trigger] r[i] < field_modulus(),
        beta < field_modulus(),
        forall|j: int| 0 <= j < betas.len() ==> #[trigger] betas[j] == fpow(beta, pow2(j as nat)),
        r.len() <= pow2(betas.len()),
    ensures
        error_fold(r, betas) == fm(gsum(|i: int| r[i] as int * fpow(beta, i as nat) as int, 0, r.len() as int)),
{
    law_error_fold_is_weighted_sum(r, betas);
    let f = |i: int| r[i] as int * bit_weight(i, betas) as int;
    let g = |i: int| r[i] as int * fpow(beta, i as nat) as int;
    assert forall|i: int| 0 <= i < r.len() implies #[trigger] f(i) == g(i) by {
        law_challenge_powers_weigh_by_index(beta, betas, i as nat);
    }
    lemma_gsum_ext(f, g, 0, r.len() as int);
}

} // verus!
