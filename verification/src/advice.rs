//! The advices of the circuit: computations of the prover that fill
//! variables outside of any constraint. Each is named by an `AdviceKind` with
//! its parameters; `advice_out` says what it computes and `advice_ok` on
//! which inputs it succeeds.

use vstd::prelude::*;
use vstd::arithmetic::power2::pow2;
use crate::field::{Fe, vals, fadd, fsub, fmul, finv, field_modulus, is_inverse};
use crate::gadgets::bit_chunks::{decompose, chunk_val};
use crate::gadgets::range::{try_limbs, base_digits, digits_nonzero};
use crate::gadgets::lookup::{
    invsum_batches, fracsum_batches, access_counts, inverses, shifted, rate_chunk, count_val, in_table,
};
use crate::gadgets::lc::pointwise;
use crate::field::fsum;
use std::rc::Rc;
use crate::folding::poseidon::{Poseidon, Constants, pow5, ark_spec, rounds_spec, mat_vals};
use crate::gadgets::poseidon::poseidon_partial_rounds_advice;
use crate::gatelib::{GateKind, kind_wf, partial_rounds};
use crate::gadgets::ecmul::{add_proj, double_proj, add_proj_spec, double_proj_spec, sm_out, scalarmul_steps};

verus! {

/// The computations an advice can make.
#[derive(Clone)]
pub enum AdviceKind {
    /// Its inputs, unchanged.
    Copy,
    /// The constant `c`.
    Const { c: Fe },
    /// `smul * a * b + sa * a + sb * b + sconst` of `(a, b)`.
    Arith { smul: Fe, sa: Fe, sb: Fe, sconst: Fe },
    /// The first `n` chunks of `k` bits of the input, least significant
    /// first; the chunks past them must be zero.
    Chunks { k: usize, n: usize },
    /// The `n` digits of the input in base `base`, least significant first,
    /// padded with zeros; it must have at most `n` digits, none zero.
    Limbs { base: u32, n: usize },
    /// The inverse of the input, which must be nonzero.
    Invert,
    /// `1 / (x - c)` of `(c, x)`, which must differ.
    InvDiff,
    /// Of `(v_0, ..., v_{l-1}, c)`, for each chunk of `rate` values, the sum
    /// of `1 / (v_i - c)` (zero for a zero difference).
    InvSum { l: usize, rate: usize },
    /// Of `(n_0, ..., n_{l-1}, c)`, for each chunk of `rate` values, the sum
    /// of `n_i / (dens_i - c)` (zero for a zero difference).
    FracSum { dens: Rc<Vec<Fe>>, rate: usize },
    /// For each entry of the table, how many inputs take its value; every
    /// input must be in the table.
    AccessCounts { table: Rc<Vec<Fe>> },
    /// The partial Poseidon rounds of width `t` from the input state: the
    /// first element of each state after its S-box, then the final state.
    PoseidonPartial { cfg: Rc<Poseidon>, t: usize },
    /// Of `(x1, y1, x2, y2)`, the affine sum of the points `(x1, y1)` and
    /// `(x2, y2)`, through projective coordinates whose third coordinate
    /// must be nonzero.
    EcAdd,
    /// Of `(x, y)`, twice the point, through projective coordinates whose
    /// third coordinate must be nonzero.
    EcDouble,
    /// Of the points of `n` limbs, `(x_0, y_0, ..., x_{n-1}, y_{n-1})`, the
    /// steps of the base-9 multiplication from the last limb down: the
    /// accumulators, three and nine times the ones before, and the scale
    /// factors of the triplings.
    ScalarMul9 { n: usize },
}

/// Projective coordinates `(X, Y, Z)` as the affine point `(X / Z, Y / Z)`.
pub open spec fn affine_of(p: (nat, nat, nat)) -> Seq<nat> {
    seq![fmul(p.0, finv(p.2)), fmul(p.1, finv(p.2))]
}

/// The projective sum that the addition advice computes.
pub open spec fn ec_add_proj(x: Seq<Fe>) -> (nat, nat, nat) {
    add_proj_spec(x[0].val(), x[1].val(), x[2].val(), x[3].val())
}

/// The projective double that the doubling advice computes.
pub open spec fn ec_double_proj(x: Seq<Fe>) -> (nat, nat, nat) {
    double_proj_spec(x[0].val(), x[1].val())
}

/// The values of the partial rounds' advice.
pub open spec fn partial_advice_out(k: Constants, t: nat, x: Seq<Fe>) -> Seq<nat> {
    let np = partial_rounds(k, t);
    let nf = k.n_rounds_f as nat;
    let c = vals(k.c@[t - 2]@);
    let m = mat_vals(k.m@[t - 2]@);
    Seq::new(
        np + t,
        |j: int|
            if j < np {
                pow5(ark_spec(rounds_spec(vals(x), c, m, nf, np, t, nf / 2, j as nat), c, (t * (j + nf / 2)) as int)[0])
            } else {
                rounds_spec(vals(x), c, m, nf, np, t, nf / 2, np)[j - np]
            },
    )
}

/// The chunk sums of inverses.
pub open spec fn invsum_out(x: Seq<Fe>, l: nat, rate: nat) -> Seq<nat> {
    Seq::new(
        l / rate,
        |j: int| fsum(rate_chunk(inverses(shifted(vals(x).take(l as int), x[l as int].val())), rate, j)),
    )
}

/// The chunk sums of fractions.
pub open spec fn fracsum_out(x: Seq<Fe>, dens: Seq<Fe>, rate: nat) -> Seq<nat> {
    let l = dens.len();
    Seq::new(
        l / rate,
        |j: int| fsum(pointwise(
            rate_chunk(inverses(shifted(vals(dens), x[l as int].val())), rate, j),
            rate_chunk(vals(x).take(l as int), rate, j),
        )),
    )
}

/// How many inputs take the value of each entry of the table.
pub open spec fn counts_out(x: Seq<Fe>, table: Seq<Fe>) -> Seq<nat> {
    Seq::new(table.len(), |j: int| count_val(x, table[j].val()))
}

/// The entries of the table have distinct values.
pub open spec fn distinct_vals(table: Seq<Fe>) -> bool {
    forall|i: int, j: int| 0 <= i < j < table.len() ==> table[i].val() != table[j].val()
}

/// Every value is in the table.
pub open spec fn all_in_table(x: Seq<Fe>, table: Seq<Fe>) -> bool {
    forall|i: int| 0 <= i < x.len() ==> in_table(table, (#[trigger] x[i]).val())
}

/// The number of chunks of `k` bits of a 256-bit encoding.
pub open spec fn total_chunks(k: nat) -> nat {
    ((256 + k - 1) / (k as int)) as nat
}

/// The chunks of `k` bits of `v` past the first `n` are zero.
pub open spec fn chunks_fit(v: nat, k: nat, n: nat) -> bool {
    forall|t: int| n <= t < total_chunks(k) ==> #[trigger] chunk_val(v, k, t as nat) == 0
}

/// The first `n` chunks of `k` bits of `v`.
pub open spec fn chunks_of(v: nat, k: nat, n: nat) -> Seq<nat> {
    Seq::new(n, |t: int| chunk_val(v, k, t as nat))
}

/// The digits of `v` in base `b`, padded with zeros to `n`.
pub open spec fn padded_digits(v: nat, b: nat, n: nat) -> Seq<nat> {
    Seq::new(n, |t: int| if t < base_digits(v, b).len() { base_digits(v, b)[t] } else { 0 })
}

/// The parameters of an advice are usable.
pub open spec fn advice_wf(a: AdviceKind) -> bool {
    match a {
        AdviceKind::Chunks { k, n } => 1 <= k <= 8 && n <= total_chunks(k as nat),
        AdviceKind::Limbs { base, n } => base >= 2,
        AdviceKind::InvSum { l, rate } => rate > 0 && l % rate == 0 && l + 1 <= usize::MAX,
        AdviceKind::FracSum { dens, rate } => rate > 0 && dens@.len() % (rate as nat) == 0 && dens@.len() + 1 <= usize::MAX,
        AdviceKind::AccessCounts { table } => distinct_vals(table@),
        AdviceKind::PoseidonPartial { cfg, t } => kind_wf(GateKind::PoseidonPartial { cfg, t }),
        AdviceKind::ScalarMul9 { n } => n >= 1 && 8 * (n - 1) <= usize::MAX,
        _ => true,
    }
}

/// The advice takes `ni` inputs.
pub open spec fn advice_arity(a: AdviceKind, ni: nat) -> bool {
    match a {
        AdviceKind::Copy => true,
        AdviceKind::Const { .. } => ni == 0,
        AdviceKind::Arith { .. } => ni == 2,
        AdviceKind::Chunks { .. } => ni == 1,
        AdviceKind::Limbs { .. } => ni == 1,
        AdviceKind::Invert => ni == 1,
        AdviceKind::InvDiff => ni == 2,
        AdviceKind::InvSum { l, .. } => ni == l + 1,
        AdviceKind::FracSum { dens, .. } => ni == dens@.len() + 1,
        AdviceKind::AccessCounts { .. } => ni <= u64::MAX,
        AdviceKind::PoseidonPartial { t, .. } => ni == t,
        AdviceKind::EcAdd => ni == 4,
        AdviceKind::EcDouble => ni == 2,
        AdviceKind::ScalarMul9 { n } => ni == 2 * n,
    }
}

/// The number of values the advice outputs on `ni` inputs.
pub open spec fn advice_o(a: AdviceKind, ni: nat) -> nat {
    match a {
        AdviceKind::Copy => ni,
        AdviceKind::Chunks { n, .. } => n as nat,
        AdviceKind::Limbs { n, .. } => n as nat,
        AdviceKind::InvSum { l, rate } => (l / rate) as nat,
        AdviceKind::FracSum { dens, rate } => dens@.len() / (rate as nat),
        AdviceKind::AccessCounts { table } => table@.len(),
        AdviceKind::PoseidonPartial { cfg, t } => partial_rounds(cfg.constants, t as nat) + (t as nat),
        AdviceKind::EcAdd => 2,
        AdviceKind::EcDouble => 2,
        AdviceKind::ScalarMul9 { n } => (8 * (n - 1)) as nat,
        _ => 1,
    }
}

/// The advice succeeds on `x`.
pub open spec fn advice_ok(a: AdviceKind, x: Seq<Fe>) -> bool {
    match a {
        AdviceKind::Chunks { k, n } => chunks_fit(x[0].val(), k as nat, n as nat),
        AdviceKind::Limbs { base, n } => digits_nonzero(x[0].val(), base as nat) && base_digits(
            x[0].val(),
            base as nat,
        ).len() <= n,
        AdviceKind::Invert => x[0].val() != 0,
        AdviceKind::InvDiff => x[1].val() != x[0].val(),
        AdviceKind::AccessCounts { table } => all_in_table(x, table@),
        AdviceKind::EcAdd => ec_add_proj(x).2 != 0,
        AdviceKind::EcDouble => ec_double_proj(x).2 != 0,
        _ => true,
    }
}

/// The values the advice outputs on `x`.
pub open spec fn advice_out(a: AdviceKind, x: Seq<Fe>) -> Seq<nat> {
    match a {
        AdviceKind::Copy => vals(x),
        AdviceKind::Const { c } => seq![c.val()],
        AdviceKind::Arith { smul, sa, sb, sconst } => {
            let (p, q) = (x[0].val(), x[1].val());
            seq![fadd(fadd(fadd(fmul(fmul(smul.val(), p), q), fmul(sa.val(), p)), fmul(sb.val(), q)), sconst.val())]
        },
        AdviceKind::Chunks { k, n } => chunks_of(x[0].val(), k as nat, n as nat),
        AdviceKind::Limbs { base, n } => padded_digits(x[0].val(), base as nat, n as nat),
        AdviceKind::Invert => seq![finv(x[0].val())],
        AdviceKind::InvDiff => seq![finv(fsub(x[1].val(), x[0].val()))],
        AdviceKind::InvSum { l, rate } => invsum_out(x, l as nat, rate as nat),
        AdviceKind::FracSum { dens, rate } => fracsum_out(x, dens@, rate as nat),
        AdviceKind::AccessCounts { table } => counts_out(x, table@),
        AdviceKind::PoseidonPartial { cfg, t } => partial_advice_out(cfg.constants, t as nat, x),
        AdviceKind::EcAdd => affine_of(ec_add_proj(x)),
        AdviceKind::EcDouble => affine_of(ec_double_proj(x)),
        AdviceKind::ScalarMul9 { n } => sm_out(vals(x), n as nat),
    }
}

/// `2^256` bounds every canonical value.
proof fn lemma_val_below_2_256(x: Fe)
    ensures
        x.val() < pow2(256),
{
    x.lemma_val_lt();
    vstd::arithmetic::power2::lemma2_to64();
    vstd::arithmetic::power2::lemma_pow2_adds(64, 64);
    vstd::arithmetic::power2::lemma_pow2_adds(128, 128);
    assert(pow2(256) == 0x10000000000000000000000000000000000000000000000000000000000000000nat) by {
        assert(pow2(64) == 0x10000000000000000nat);
        assert(pow2(128) == pow2(64) * pow2(64));
        assert(pow2(256) == pow2(128) * pow2(128));
        assert(0x10000000000000000nat * 0x10000000000000000nat == 0x100000000000000000000000000000000nat) by (nonlinear_arith);
        assert(0x100000000000000000000000000000000nat * 0x100000000000000000000000000000000nat
            == 0x10000000000000000000000000000000000000000000000000000000000000000nat) by (nonlinear_arith);
    }
}

/// The inverse the field gives is `finv`.
proof fn lemma_inverse_is_finv(a: nat, b: nat)
    requires
        a < field_modulus(),
        b < field_modulus(),
        is_inverse(a, b),
    ensures
        finv(a) == b,
{
    crate::field::lemma_finv_unique(a, b);
}

/// A nonzero chunk past the first `n` fails the advice.
proof fn lemma_chunks_fail(x: Fe, k: usize, n: usize, t: int)
    requires
        n <= t < total_chunks(k as nat),
        chunk_val(x.val(), k as nat, t as nat) != 0,
    ensures
        !advice_ok(AdviceKind::Chunks { k, n }, seq![x]),
{
    assert(seq![x][0] == x);
}

/// All chunks of `k` bits of `x`, or `None` when those past `n` are not zero.
fn checked_chunks(x: Fe, k: usize, n: usize) -> (r: Option<Vec<Fe>>)
    requires
        1 <= k <= 8,
        n <= total_chunks(k as nat),
    ensures
        r is Some <==> advice_ok(AdviceKind::Chunks { k, n }, seq![x]),
        r matches Some(v) ==> vals(v@) == advice_out(AdviceKind::Chunks { k, n }, seq![x]) && v@.len() == n,
{
    let total = (256 + k - 1) / k;
    proof {
        lemma_val_below_2_256(x);
        assert(k * total >= 256) by (nonlinear_arith)
            requires
                total == (256 + k - 1) / (k as int),
                1 <= k <= 8,
        ;
        if k * total > 256 {
            vstd::arithmetic::power2::lemma_pow2_strictly_increases(256, (k * total) as nat);
        }
    }
    let all = decompose(x, k, total);
    let mut t: usize = n;
    while t < total
        invariant
            n <= t <= total,
            total == total_chunks(k as nat),
            all@.len() == total,
            forall|j: int| 0 <= j < all@.len() ==> (#[trigger] all@[j]).val() == chunk_val(x.val(), k as nat, j as nat),
            forall|j: int| n <= j < t ==> #[trigger] chunk_val(x.val(), k as nat, j as nat) == 0,
        decreases total - t,
    {
        if !all[t].is_zero() {
            proof {
                lemma_chunks_fail(x, k, n, t as int);
            }
            return None;
        }
        t = t + 1;
    }
    let mut out: Vec<Fe> = Vec::new();
    let mut j: usize = 0;
    while j < n
        invariant
            j <= n <= total,
            all@.len() == total,
            forall|i: int| 0 <= i < all@.len() ==> (#[trigger] all@[i]).val() == chunk_val(x.val(), k as nat, i as nat),
            out@.len() == j,
            forall|i: int| 0 <= i < j ==> (#[trigger] out@[i]).val() == chunk_val(x.val(), k as nat, i as nat),
        decreases n - j,
    {
        out.push(all[j]);
        j = j + 1;
    }
    proof {
        assert(seq![x][0] == x);
        assert(vals(out@) =~= advice_out(AdviceKind::Chunks { k, n }, seq![x]));
    }
    Some(out)
}

/// The digits of `x` in base `base`, padded to `n`, or `None` when it has
/// more than `n` digits or a zero one.
fn checked_limbs(x: Fe, base: u32, n: usize) -> (r: Option<Vec<Fe>>)
    requires
        base >= 2,
    ensures
        r is Some <==> advice_ok(AdviceKind::Limbs { base, n }, seq![x]),
        r matches Some(v) ==> vals(v@) == advice_out(AdviceKind::Limbs { base, n }, seq![x]) && v@.len() == n,
{
    proof {
        assert(seq![x][0] == x);
    }
    let d = match try_limbs(x, base) {
        Some(d) => d,
        None => {
            return None;
        },
    };
    if d.len() > n {
        return None;
    }
    let ghost bd = base_digits(x.val(), base as nat);
    let mut out: Vec<Fe> = Vec::new();
    let mut j: usize = 0;
    while j < n
        invariant
            j <= n,
            d@.len() <= n,
            bd == base_digits(x.val(), base as nat),
            d@.len() == bd.len(),
            forall|i: int| 0 <= i < d@.len() ==> #[trigger] d@[i] as nat == bd[i],
            out@.len() == j,
            forall|i: int| 0 <= i < j ==> (#[trigger] out@[i]).val() == if i < bd.len() { bd[i] } else { 0 },
        decreases n - j,
    {
        if j < d.len() {
            out.push(Fe::from_u64(d[j] as u64));
        } else {
            out.push(Fe::zero());
        }
        j = j + 1;
    }
    proof {
        assert(vals(out@) =~= advice_out(AdviceKind::Limbs { base, n }, seq![x]));
    }
    Some(out)
}

/// The advice that copies its inputs.
fn copy_advice(a: &AdviceKind, x: &[Fe]) -> (v: Vec<Fe>)
    requires
        a is Copy,
    ensures
        vals(v@) == advice_out(*a, x@),
        v@.len() == advice_o(*a, x@.len()),
{
    let v = vstd::slice::slice_to_vec(x);
    proof {
        assert(v@ =~= x@);
    }
    v
}

/// The arithmetic advice.
fn arith_advice(a: &AdviceKind, x: &[Fe]) -> (v: Vec<Fe>)
    requires
        a is Arith,
        x@.len() == 2,
    ensures
        vals(v@) == advice_out(*a, x@),
        v@.len() == 1,
{
    match a {
        AdviceKind::Arith { smul, sa, sb, sconst } => {
            let p = x[0];
            let q = x[1];
            let v = vec![smul.mul(&p).mul(&q).add(&sa.mul(&p)).add(&sb.mul(&q)).add(sconst)];
            proof {
                assert(vals(v@) =~= advice_out(*a, x@));
            }
            v
        },
        _ => {
            proof {
                assert(false);
            }
            Vec::new()
        },
    }
}

/// The inverse advice.
fn invert_advice(a: &AdviceKind, x: &[Fe]) -> (r: Option<Vec<Fe>>)
    requires
        a is Invert,
        x@.len() == 1,
    ensures
        r is Some <==> advice_ok(*a, x@),
        r matches Some(v) ==> vals(v@) == advice_out(*a, x@) && v@.len() == 1,
{
    match x[0].invert() {
        Some(y) => {
            let v = vec![y];
            proof {
                x@[0].lemma_val_lt();
                y.lemma_val_lt();
                lemma_inverse_is_finv(x@[0].val(), y.val());
                assert(vals(v@) =~= advice_out(*a, x@));
            }
            Some(v)
        },
        None => None,
    }
}

/// The advice of the inverse of a difference.
fn invdiff_advice(a: &AdviceKind, x: &[Fe]) -> (r: Option<Vec<Fe>>)
    requires
        a is InvDiff,
        x@.len() == 2,
    ensures
        r is Some <==> advice_ok(*a, x@),
        r matches Some(v) ==> vals(v@) == advice_out(*a, x@) && v@.len() == 1,
{
    let d = x[1].sub(&x[0]);
    proof {
        x@[0].lemma_val_lt();
        x@[1].lemma_val_lt();
        let z: int = x@[1].val() - x@[0].val();
        let p: int = field_modulus() as int;
        if d.val() == 0 {
            vstd::arithmetic::div_mod::lemma_fundamental_div_mod(z, p);
            assert(z == 0) by (nonlinear_arith)
                requires
                    z == p * (z / p) + z % p,
                    z % p == 0,
                    -p < z < p,
                    p > 0,
            ;
        }
    }
    match d.invert() {
        Some(y) => {
            let v = vec![y];
            proof {
                d.lemma_val_lt();
                y.lemma_val_lt();
                lemma_inverse_is_finv(d.val(), y.val());
                assert(vals(v@) =~= advice_out(*a, x@));
            }
            Some(v)
        },
        None => None,
    }
}

/// Whether every value is in the table.
fn check_in_table(x: &[Fe], table: &[Fe]) -> (r: bool)
    ensures
        r == all_in_table(x@, table@),
{
    let mut i: usize = 0;
    while i < x.len()
        invariant
            i <= x@.len(),
            forall|a: int| 0 <= a < i ==> in_table(table@, (#[trigger] x@[a]).val()),
        decreases x@.len() - i,
    {
        let mut j: usize = 0;
        let mut found = false;
        while j < table.len()
            invariant
                i < x@.len(),
                j <= table@.len(),
                found ==> in_table(table@, x@[i as int].val()),
                !found ==> forall|t: int| 0 <= t < j ==> table@[t].val() != x@[i as int].val(),
            decreases table@.len() - j,
        {
            if table[j] == x[i] {
                found = true;
            }
            j = j + 1;
        }
        if !found {
            proof {
                assert(!in_table(table@, x@[i as int].val()));
            }
            return false;
        }
        i = i + 1;
    }
    true
}

/// The advice of the sums of inverses.
fn invsum_advice(a: &AdviceKind, x: &[Fe]) -> (v: Vec<Fe>)
    requires
        a is InvSum,
        advice_wf(*a),
        advice_arity(*a, x@.len()),
    ensures
        vals(v@) == advice_out(*a, x@),
        v@.len() == advice_o(*a, x@.len()),
{
    match a {
        AdviceKind::InvSum { l, rate } => {
            let v = invsum_batches(x, *l, *rate);
            proof {
                assert(vals(v@) =~= advice_out(*a, x@));
            }
            v
        },
        _ => {
            proof {
                assert(false);
            }
            Vec::new()
        },
    }
}

/// The advice of the sums of fractions.
fn fracsum_advice(a: &AdviceKind, x: &[Fe]) -> (v: Vec<Fe>)
    requires
        a is FracSum,
        advice_wf(*a),
        advice_arity(*a, x@.len()),
    ensures
        vals(v@) == advice_out(*a, x@),
        v@.len() == advice_o(*a, x@.len()),
{
    match a {
        AdviceKind::FracSum { dens, rate } => {
            let v = fracsum_batches(x, dens.as_slice(), dens.len(), *rate);
            proof {
                assert(vals(v@) =~= advice_out(*a, x@));
            }
            v
        },
        _ => {
            proof {
                assert(false);
            }
            Vec::new()
        },
    }
}

/// The advice of the access counts.
fn counts_advice(a: &AdviceKind, x: &[Fe]) -> (r: Option<Vec<Fe>>)
    requires
        a is AccessCounts,
        advice_wf(*a),
        advice_arity(*a, x@.len()),
    ensures
        r is Some <==> advice_ok(*a, x@),
        r matches Some(v) ==> vals(v@) == advice_out(*a, x@) && v@.len() == advice_o(*a, x@.len()),
{
    match a {
        AdviceKind::AccessCounts { table } => {
            if !check_in_table(x, table.as_slice()) {
                return None;
            }
            let v = access_counts(x, table.as_slice());
            proof {
                assert(vals(v@) =~= advice_out(*a, x@));
            }
            Some(v)
        },
        _ => {
            proof {
                assert(false);
            }
            None
        },
    }
}

/// The advice of the partial Poseidon rounds.
fn partial_advice(a: &AdviceKind, x: &[Fe]) -> (v: Vec<Fe>)
    requires
        a is PoseidonPartial,
        advice_wf(*a),
        advice_arity(*a, x@.len()),
    ensures
        vals(v@) == advice_out(*a, x@),
        v@.len() == advice_o(*a, x@.len()),
{
    match a {
        AdviceKind::PoseidonPartial { cfg, t } => {
            let k = &cfg.constants;
            let v = poseidon_partial_rounds_advice(x, &k.c[*t - 2], &k.m[*t - 2], k.n_rounds_f, k.n_rounds_p[*t - 2], *t);
            proof {
                assert(vals(v@) =~= advice_out(*a, x@));
            }
            v
        },
        _ => {
            proof {
                assert(false);
            }
            Vec::new()
        },
    }
}

/// The affine point of projective coordinates, or `None` for a zero third
/// coordinate.
fn to_affine(p: (Fe, Fe, Fe)) -> (r: Option<Vec<Fe>>)
    ensures
        r is Some <==> p.2.val() != 0,
        r matches Some(v) ==> vals(v@) == affine_of((p.0.val(), p.1.val(), p.2.val())) && v@.len() == 2,
{
    let (x, y, z) = p;
    match z.invert() {
        Some(zinv) => {
            let v = vec![x.mul(&zinv), y.mul(&zinv)];
            proof {
                z.lemma_val_lt();
                zinv.lemma_val_lt();
                lemma_inverse_is_finv(z.val(), zinv.val());
                assert(vals(v@) =~= affine_of((x.val(), y.val(), z.val())));
            }
            Some(v)
        },
        None => None,
    }
}

/// Runs the advice on `x`: `None` exactly where it fails.
pub fn compute_advice(a: &AdviceKind, x: &[Fe]) -> (r: Option<Vec<Fe>>)
    requires
        advice_wf(*a),
        advice_arity(*a, x@.len()),
    ensures
        r is Some <==> advice_ok(*a, x@),
        r matches Some(v) ==> vals(v@) == advice_out(*a, x@) && v@.len() == advice_o(*a, x@.len()),
{
    match a {
        AdviceKind::Copy => Some(copy_advice(a, x)),
        AdviceKind::Const { c } => {
            let v = vec![*c];
            proof {
                assert(vals(v@) =~= advice_out(*a, x@));
            }
            Some(v)
        },
        AdviceKind::Arith { .. } => Some(arith_advice(a, x)),
        AdviceKind::Chunks { k, n } => {
            proof {
                assert(x@ =~= seq![x@[0]]);
            }
            checked_chunks(x[0], *k, *n)
        },
        AdviceKind::Limbs { base, n } => {
            proof {
                assert(x@ =~= seq![x@[0]]);
            }
            checked_limbs(x[0], *base, *n)
        },
        AdviceKind::Invert => invert_advice(a, x),
        AdviceKind::InvDiff => invdiff_advice(a, x),
        AdviceKind::InvSum { .. } => Some(invsum_advice(a, x)),
        AdviceKind::FracSum { .. } => Some(fracsum_advice(a, x)),
        AdviceKind::AccessCounts { .. } => counts_advice(a, x),
        AdviceKind::PoseidonPartial { .. } => Some(partial_advice(a, x)),
        AdviceKind::EcAdd => to_affine(add_proj((x[0], x[1]), (x[2], x[3]))),
        AdviceKind::EcDouble => to_affine(double_proj((x[0], x[1]))),
        AdviceKind::ScalarMul9 { n } => Some(scalarmul_steps(x, *n)),
    }
}

} // verus!
