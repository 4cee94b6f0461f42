//! The gates of the gadget library: each kind of constraint the gadgets add,
//! with its polynomial. Polynomial maps that the circuit both computes and
//! constrains (`f(inputs) - outputs`) are the `Applied` gates of a `PolyKind`.

use vstd::prelude::*;
use vstd::arithmetic::power2::pow2;
use crate::field::{Fe, fadd, fsub, fmul, fm, fsum, fprod, vals, field_modulus};
use crate::gate::Gate;
use crate::arith_helper::poly_eval;
use crate::gadgets::lc::{inner_prod, sum_arr, pointwise};
use crate::gadgets::bits;
use crate::gadgets::bit_chunks;
use crate::gadgets::range::{rangecheck, lagrange_choice_batched, lagrange_val};
use crate::gadgets::lagrange::range_prod;
use crate::gadgets::lookup::{sum_of_fractions, sum_of_fractions_with_nums, fractions_check, fractions_with_nums_check, shifted};
use crate::gadgets::ecmul::{double_proj, add_proj, double_proj_spec, add_proj_spec};
use crate::gadgets::poseidon::{
    partial_fits, partial_with_advice, poseidon_partial_rounds_constraint, cfg_fits, mixed_start_spec, mixed_mid_spec,
    mixed_end_spec, poseidon_mixed_strategy_start, poseidon_mixed_strategy_mid, poseidon_mixed_strategy_end,
};
use crate::folding::poseidon::{Poseidon, Constants, poseidon_kround_poly, rounds_spec, mat_vals, mat_fits, ark_spec, pow5};
use vstd::arithmetic::power::pow;
use std::rc::Rc;

verus! {

/// Polynomial maps that a circuit computes and constrains at once.
#[derive(Clone)]
pub enum PolyKind {
    /// The sum of the `n` inputs.
    Sum { n: usize },
    /// `sum_i coeffs[i] * x[i]`.
    Lc { coeffs: Rc<Vec<Fe>> },
    /// The inner product of the first `n` inputs with the next `n`.
    Qc { n: usize },
    /// The product of the `n` inputs.
    Prod { n: usize },
    /// Of `n` vectors of `q` values, the one that the last input selects:
    /// `sum_i L_i(index) * v_i`, `L_i` the Lagrange basis on `0..n`.
    Choice { n: usize, q: usize },
    /// `(x0 - x1)(x0 - x2)(x1 - x2)`: nonzero when the three differ.
    DistinctX3,
    /// `x0 - x1`.
    Diff,
    /// `k` Poseidon rounds of width `t` from round `i`; with `pad`, the
    /// inputs are the state but its first element, which is zero.
    PoseidonRounds { cfg: Rc<Poseidon>, t: usize, i: usize, k: usize, pad: bool },
    /// The head of the mixed strategy from round `i`: a round, then the
    /// constants of the next; with `pad`, the first element is zero.
    MixedStart { cfg: Rc<Poseidon>, t: usize, i: usize, pad: bool },
    /// The middle of the mixed strategy: two S-boxes around a mix.
    MixedMid { cfg: Rc<Poseidon>, t: usize, i: usize },
    /// The tail of the mixed strategy: a mix, then round `i`.
    MixedEnd { cfg: Rc<Poseidon>, t: usize, i: usize },
}

/// The state of width `t` that the inputs give: with `pad`, a zero first.
pub open spec fn padded(x: Seq<Fe>, pad: bool) -> Seq<nat> {
    if pad {
        seq![0nat] + vals(x)
    } else {
        vals(x)
    }
}

/// The round constants of width `t`.
pub open spec fn consts_c(k: Constants, t: nat) -> Seq<nat> {
    vals(k.c@[t - 2]@)
}

/// The mixing matrix of width `t`.
pub open spec fn consts_m(k: Constants, t: nat) -> Seq<Seq<nat>> {
    mat_vals(k.m@[t - 2]@)
}

/// The values of a polynomial map.
pub open spec fn poly_out(p: PolyKind, x: Seq<Fe>) -> Seq<nat> {
    match p {
        PolyKind::Sum { n } => seq![fsum(vals(x.take(n as int)))],
        PolyKind::Lc { coeffs } => seq![fsum(pointwise(vals(coeffs@), vals(x.take(coeffs@.len() as int))))],
        PolyKind::Qc { n } => seq![fsum(pointwise(vals(x.take(n as int)), vals(x.subrange(n as int, 2 * n))))],
        PolyKind::Prod { n } => seq![fprod(vals(x.take(n as int)))],
        PolyKind::Choice { n, q } => Seq::new(q as nat, |j: int| choice_sum(vals(x), n as nat, q as nat, j, n as int)),
        PolyKind::DistinctX3 => {
            let (a, b, c) = (x[0].val(), x[1].val(), x[2].val());
            seq![fmul(fmul(fsub(a, b), fsub(a, c)), fsub(b, c))]
        },
        PolyKind::Diff => seq![fsub(x[0].val(), x[1].val())],
        PolyKind::PoseidonRounds { cfg, t, i, k, pad } => rounds_spec(
            padded(x, pad),
            consts_c(cfg.constants, t as nat),
            consts_m(cfg.constants, t as nat),
            cfg.constants.n_rounds_f as nat,
            cfg.constants.n_rounds_p@[t - 2] as nat,
            t as nat,
            i as nat,
            k as nat,
        ),
        PolyKind::MixedStart { cfg, t, i, pad } => mixed_start_spec(cfg.constants, padded(x, pad), i as nat),
        PolyKind::MixedMid { cfg, t, i } => mixed_mid_spec(cfg.constants, vals(x), i as nat),
        PolyKind::MixedEnd { cfg, t, i } => mixed_end_spec(cfg.constants, vals(x), i as nat),
    }
}

/// `sum_{i < k} L_i(index) * v[i q + j]`, the index the input after the `n q`
/// values.
pub open spec fn choice_sum(v: Seq<nat>, n: nat, q: nat, j: int, k: int) -> nat
    decreases k,
{
    if k <= 0 {
        0
    } else {
        fadd(choice_sum(v, n, q, j, k - 1), fmul(v[(k - 1) * q + j], lagrange_val(v[(n * q) as int], (k - 1) as nat, n)))
    }
}

/// Kinds of gates.
#[derive(Clone)]
pub enum GateKind {
    /// `smul * a * b + sa * a + sb * b + sconst - c` on `(a, b, c)`.
    Arith { smul: Fe, sa: Fe, sb: Fe, sconst: Fe },
    /// `a - c` on `(a)`.
    ReadConst { c: Fe },
    /// `a * b - 1` on `(a, b)`: `b` is the inverse of `a`.
    NonzeroCheck,
    /// `x * x - x` on `(x)`: `x` is a bit.
    Bitcheck,
    /// `sum_i 2^i b_i - x` on `(x, b_0, ..., b_{n-1})`.
    BitDecomp { n: usize },
    /// `prod_{i < 2^k} (x - i)` on `(x)`: `x` is below `2^k`.
    ChunkCheck { k: usize },
    /// `sum_i 2^(k i) c_i - x` on `(x, c_0, ..., c_{n-1})`.
    ChunkDecomp { n: usize, k: usize },
    /// `prod_{j < range} (x - j)` on `(x)`: `x` is below `range`.
    RangeCheck { range: usize },
    /// `sum_i base^i l_i - x` on `(l_0, ..., l_{n-1}, x)`.
    LimbDecomp { n: usize, base: u64 },
    /// `sum_i coeffs[i] * x[i]` on `x`.
    LcConstr { coeffs: Rc<Vec<Fe>> },
    /// `res * prod(v - c) - sum_i prod_{j != i}(v_j - c)` on `(res, c, v_0, ..., v_{k-1})`.
    SumOfFractions { k: usize },
    /// `res * prod(d - c) - sum_i n_i prod_{j != i}(d_j - c)` on
    /// `(res, c, n_0, ..., n_{k-1})`, with the denominators `d` fixed.
    FracsumWithNums { dens: Rc<Vec<Fe>> },
    /// `x^3 + a x + b - y^2` on `(x, y)`: the point is on the curve.
    OnCurve { a: Fe, b: Fe },
    /// On `(x1, y1, x2, y2, x3, y3)`: `(x1, y1)`, `(x2, y2)` and `(x3, -y3)` are collinear.
    Collinear,
    /// On `(x1, y1, x2, y2)`: the tangent in `(x1, y1)` passes through `(x2, -y2)`.
    Tangent,
    /// On `(ax, ay, bx, by, q)`: twice `A`, scaled by `q`, is `B - A`, in
    /// projective coordinates.
    TripleCheck,
    /// `f(inputs) - outputs` for the polynomial map `f`.
    Applied { poly: PolyKind },
    /// The partial Poseidon rounds of width `t` on
    /// `(adv_in, adv_out, input, output)`: each fifth power against
    /// `adv_out`, with `adv_in` in its place, then the state against `output`.
    PoseidonPartial { cfg: Rc<Poseidon>, t: usize },
}

/// The number of partial rounds of width `t`.
pub open spec fn partial_rounds(k: Constants, t: nat) -> nat {
    k.n_rounds_p@[t - 2] as nat
}

/// The values of the partial rounds' gate.
pub open spec fn partial_out(k: Constants, t: nat, x: Seq<Fe>) -> Seq<nat> {
    let np = partial_rounds(k, t);
    let nf = k.n_rounds_f as nat;
    let c = consts_c(k, t);
    let m = consts_m(k, t);
    let adv_in = vals(x.subrange(0, np as int));
    let adv_out = x.subrange(np as int, (2 * np) as int);
    let inp = vals(x.subrange((2 * np) as int, (2 * np + t) as int));
    let out = x.subrange((2 * np + t) as int, (2 * np + 2 * t) as int);
    Seq::new(np + t, |j: int| if j < np {
        fsub(pow5(ark_spec(partial_with_advice(inp, c, m, adv_in, nf, t, j as nat), c, (t * (j + nf / 2)) as int)[0]), adv_out[j].val())
    } else {
        fsub(partial_with_advice(inp, c, m, adv_in, nf, t, np)[j - np], out[j - np].val())
    })
}

/// Number of inputs of a polynomial map.
pub open spec fn poly_i(p: PolyKind) -> nat {
    match p {
        PolyKind::Sum { n } => n as nat,
        PolyKind::Lc { coeffs } => coeffs@.len(),
        PolyKind::Qc { n } => 2 * n as nat,
        PolyKind::Prod { n } => n as nat,
        PolyKind::Choice { n, q } => (n * q + 1) as nat,
        PolyKind::DistinctX3 => 3,
        PolyKind::Diff => 2,
        PolyKind::PoseidonRounds { t, pad, .. } => if pad { (t - 1) as nat } else { t as nat },
        PolyKind::MixedStart { t, pad, .. } => if pad { (t - 1) as nat } else { t as nat },
        PolyKind::MixedMid { t, .. } => t as nat,
        PolyKind::MixedEnd { t, .. } => t as nat,
    }
}

/// Number of outputs of a polynomial map.
pub open spec fn poly_o(p: PolyKind) -> nat {
    match p {
        PolyKind::Choice { q, .. } => q as nat,
        PolyKind::PoseidonRounds { t, .. } => t as nat,
        PolyKind::MixedStart { t, .. } => t as nat,
        PolyKind::MixedMid { t, .. } => t as nat,
        PolyKind::MixedEnd { t, .. } => t as nat,
        _ => 1,
    }
}

/// Degree of a polynomial map, as the gadgets declare it.
pub open spec fn poly_d(p: PolyKind) -> nat {
    match p {
        PolyKind::Sum { .. } => 1,
        PolyKind::Lc { .. } => 1,
        PolyKind::Qc { .. } => 2,
        PolyKind::Prod { n } => n as nat,
        PolyKind::Choice { n, .. } => n as nat,
        PolyKind::DistinctX3 => 3,
        PolyKind::Diff => 1,
        PolyKind::PoseidonRounds { k, .. } => pow(5, k as nat) as nat,
        PolyKind::MixedStart { .. } => 5,
        PolyKind::MixedMid { .. } => 25,
        PolyKind::MixedEnd { .. } => 5,
    }
}

/// The rounds from `i` to `i + k` of width `t` fit the constants.
pub open spec fn rounds_fit(k: Constants, t: nat, i: nat, r: nat) -> bool {
    &&& t >= 2
    &&& t - 2 < k.c@.len()
    &&& t - 2 < k.m@.len()
    &&& t - 2 < k.n_rounds_p@.len()
    &&& r > 0 ==> (i + r - 1) * t + t <= k.c@[t - 2]@.len()
    &&& i + r <= usize::MAX
    &&& mat_fits(k.m@[t - 2]@, t)
    &&& k.n_rounds_f / 2 + k.n_rounds_p@[t - 2] <= usize::MAX
    &&& pow(5, r) <= usize::MAX
}

/// The parameters of a polynomial map fit the machine and its functions.
pub open spec fn poly_wf(p: PolyKind) -> bool {
    match p {
        PolyKind::Sum { n } => true,
        PolyKind::Lc { coeffs } => true,
        PolyKind::Qc { n } => 2 * n <= usize::MAX,
        PolyKind::Prod { n } => true,
        PolyKind::Choice { n, q } => 2 <= n < 30 && n * q + 1 <= usize::MAX,
        PolyKind::DistinctX3 => true,
        PolyKind::Diff => true,
        PolyKind::PoseidonRounds { cfg, t, i, k, pad } => rounds_fit(cfg.constants, t as nat, i as nat, k as nat),
        PolyKind::MixedStart { cfg, t, i, pad } => cfg_fits(cfg.constants, t as nat, (i + 1) as nat) && i + 1 <= usize::MAX,
        PolyKind::MixedMid { cfg, t, i } => cfg_fits(cfg.constants, t as nat, (i + 1) as nat) && i + 1 <= usize::MAX,
        PolyKind::MixedEnd { cfg, t, i } => cfg_fits(cfg.constants, t as nat, i as nat),
    }
}

/// `n` is `2^k`, which fits a `usize`.
pub open spec fn chunk_wf(k: usize) -> bool {
    k < 64 && pow2(k as nat) <= usize::MAX
}

/// The parameters of a gate fit the machine and the functions it calls.
pub open spec fn kind_wf(g: GateKind) -> bool {
    match g {
        GateKind::BitDecomp { n } => n + 1 <= usize::MAX,
        GateKind::ChunkCheck { k } => chunk_wf(k),
        GateKind::ChunkDecomp { n, k } => n + 1 <= usize::MAX && k < 64,
        GateKind::RangeCheck { range } => 1 <= range <= 50,
        GateKind::LimbDecomp { n, base } => n + 1 <= usize::MAX,
        GateKind::SumOfFractions { k } => k + 2 <= usize::MAX,
        GateKind::FracsumWithNums { dens } => dens@.len() + 2 <= usize::MAX,
        GateKind::Applied { poly } => poly_wf(poly) && poly_i(poly) + poly_o(poly) <= usize::MAX,
        GateKind::PoseidonPartial { cfg, t } => {
            &&& t >= 2
            &&& t - 2 < cfg.constants.c@.len()
            &&& t - 2 < cfg.constants.m@.len()
            &&& t - 2 < cfg.constants.n_rounds_p@.len()
            &&& partial_fits(t as nat, cfg.constants.c@[t - 2]@, cfg.constants.m@[t - 2]@, cfg.constants.n_rounds_f as nat, partial_rounds(cfg.constants, t as nat), t as nat)
            &&& 2 * partial_rounds(cfg.constants, t as nat) + 2 * t <= usize::MAX
        },
        _ => true,
    }
}

/// Degree of a gate.
pub open spec fn kind_d(g: GateKind) -> nat {
    match g {
        GateKind::Arith { .. } => 2,
        GateKind::ReadConst { .. } => 1,
        GateKind::NonzeroCheck => 2,
        GateKind::Bitcheck => 2,
        GateKind::BitDecomp { .. } => 1,
        GateKind::ChunkCheck { k } => pow2(k as nat),
        GateKind::ChunkDecomp { .. } => 1,
        GateKind::RangeCheck { range } => range as nat,
        GateKind::LimbDecomp { .. } => 1,
        GateKind::LcConstr { .. } => 1,
        GateKind::SumOfFractions { k } => (k + 1) as nat,
        GateKind::FracsumWithNums { dens } => dens@.len() + 1,
        GateKind::OnCurve { .. } => 3,
        GateKind::Collinear => 2,
        GateKind::Tangent => 2,
        GateKind::TripleCheck => 8,
        GateKind::Applied { poly } => poly_d(poly),
        GateKind::PoseidonPartial { .. } => 5,
    }
}

/// Number of inputs of a gate.
pub open spec fn kind_i(g: GateKind) -> nat {
    match g {
        GateKind::Arith { .. } => 3,
        GateKind::ReadConst { .. } => 1,
        GateKind::NonzeroCheck => 2,
        GateKind::Bitcheck => 1,
        GateKind::BitDecomp { n } => (n + 1) as nat,
        GateKind::ChunkCheck { .. } => 1,
        GateKind::ChunkDecomp { n, .. } => (n + 1) as nat,
        GateKind::RangeCheck { .. } => 1,
        GateKind::LimbDecomp { n, .. } => (n + 1) as nat,
        GateKind::LcConstr { coeffs } => coeffs@.len(),
        GateKind::SumOfFractions { k } => (k + 2) as nat,
        GateKind::FracsumWithNums { dens } => dens@.len() + 2,
        GateKind::OnCurve { .. } => 2,
        GateKind::Collinear => 6,
        GateKind::Tangent => 4,
        GateKind::TripleCheck => 5,
        GateKind::Applied { poly } => poly_i(poly) + poly_o(poly),
        GateKind::PoseidonPartial { cfg, t } => 2 * partial_rounds(cfg.constants, t as nat) + 2 * (t as nat),
    }
}

/// Number of outputs of a gate.
pub open spec fn kind_o(g: GateKind) -> nat {
    match g {
        GateKind::TripleCheck => 3,
        GateKind::Applied { poly } => poly_o(poly),
        GateKind::PoseidonPartial { cfg, t } => partial_rounds(cfg.constants, t as nat) + (t as nat),
        _ => 1,
    }
}

/// The values of a gate.
pub open spec fn kind_out(g: GateKind, x: Seq<Fe>) -> Seq<nat> {
    match g {
        GateKind::Arith { smul, sa, sb, sconst } => {
            let (a, b, c) = (x[0].val(), x[1].val(), x[2].val());
            seq![fsub(fadd(fadd(fadd(fmul(fmul(smul.val(), a), b), fmul(sa.val(), a)), fmul(sb.val(), b)), sconst.val()), c)]
        },
        GateKind::ReadConst { c } => seq![fsub(x[0].val(), c.val())],
        GateKind::NonzeroCheck => seq![fsub(fmul(x[0].val(), x[1].val()), 1)],
        GateKind::Bitcheck => seq![fsub(fmul(x[0].val(), x[0].val()), x[0].val())],
        GateKind::BitDecomp { n } => seq![fsub(poly_eval(vals(x).skip(1), 2), x[0].val())],
        GateKind::ChunkCheck { k } => seq![fprod(Seq::new(pow2(k as nat), |i: int| fm(x[0].val() - i)))],
        GateKind::ChunkDecomp { n, k } => seq![fsub(poly_eval(vals(x).skip(1), pow2(k as nat)), x[0].val())],
        GateKind::RangeCheck { range } => seq![range_prod(x[0].val(), 0, range as int)],
        GateKind::LimbDecomp { n, base } => seq![fsub(poly_eval(vals(x).take(n as int), base as nat), x[n as int].val())],
        GateKind::LcConstr { coeffs } => seq![fsum(pointwise(vals(coeffs@), vals(x)))],
        GateKind::SumOfFractions { k } => seq![fractions_check(x[0].val(), shifted(vals(x).skip(2), x[1].val()))],
        GateKind::FracsumWithNums { dens } => seq![
            fractions_with_nums_check(x[0].val(), shifted(vals(dens@), x[1].val()), vals(x).skip(2)),
        ],
        GateKind::OnCurve { a, b } => {
            let (px, py) = (x[0].val(), x[1].val());
            seq![fsub(fadd(fadd(fmul(fmul(px, px), px), fmul(a.val(), px)), b.val()), fmul(py, py))]
        },
        GateKind::Collinear => {
            let a = fsub(x[2].val(), x[0].val());
            let b = fsub(x[3].val(), x[1].val());
            let c = fsub(x[4].val(), x[0].val());
            let d = fsub(fsub(0, x[5].val()), x[1].val());
            seq![fsub(fmul(a, d), fmul(b, c))]
        },
        GateKind::Tangent => {
            let a = fsub(x[2].val(), x[0].val());
            let b = fsub(fsub(0, x[3].val()), x[1].val());
            let c = fmul(x[1].val(), 2);
            let d = fmul(fmul(x[0].val(), x[0].val()), 3);
            seq![fsub(fmul(a, d), fmul(b, c))]
        },
        GateKind::TripleCheck => {
            let q = x[4].val();
            let p1 = double_proj_spec(x[0].val(), x[1].val());
            let p2 = add_proj_spec(x[2].val(), x[3].val(), x[0].val(), fsub(0, x[1].val()));
            seq![fsub(p2.0, fmul(p1.0, q)), fsub(p2.1, fmul(p1.1, q)), fsub(p2.2, fmul(p1.2, q))]
        },
        GateKind::Applied { poly } => {
            let k = poly_i(poly);
            Seq::new(poly_o(poly), |j: int| fsub(poly_out(poly, x.take(k as int))[j], x[k + j].val()))
        },
        GateKind::PoseidonPartial { cfg, t } => partial_out(cfg.constants, t as nat, x),
    }
}

/// A gate of the library: a kind with parameters that fit.
pub struct LibGate {
    kind: GateKind,
}

impl LibGate {
    #[verifier::type_invariant]
    spec fn wf(self) -> bool {
        kind_wf(self.kind)
    }

    /// Its kind, with the parameters.
    pub closed spec fn kind(self) -> GateKind {
        self.kind
    }

    /// A library gate of a kind whose parameters fit.
    pub fn new(kind: GateKind) -> (r: Self)
        requires
            kind_wf(kind),
        ensures
            r.kind() == kind,
    {
        LibGate { kind }
    }

    /// Its kind, with the parameters.
    pub fn get_kind(&self) -> (r: &GateKind)
        ensures
            *r == self.kind(),
    {
        &self.kind
    }
}

impl PolyKind {
    /// A copy of the map, sharing its vectors and configuration.
    pub fn duplicate(&self) -> (r: PolyKind)
        ensures
            r == *self,
    {
        match self {
            PolyKind::Sum { n } => PolyKind::Sum { n: *n },
            PolyKind::Lc { coeffs } => PolyKind::Lc { coeffs: Rc::clone(coeffs) },
            PolyKind::Qc { n } => PolyKind::Qc { n: *n },
            PolyKind::Prod { n } => PolyKind::Prod { n: *n },
            PolyKind::Choice { n, q } => PolyKind::Choice { n: *n, q: *q },
            PolyKind::DistinctX3 => PolyKind::DistinctX3,
            PolyKind::Diff => PolyKind::Diff,
            PolyKind::PoseidonRounds { cfg, t, i, k, pad } => PolyKind::PoseidonRounds {
                cfg: Rc::clone(cfg),
                t: *t,
                i: *i,
                k: *k,
                pad: *pad,
            },
            PolyKind::MixedStart { cfg, t, i, pad } => PolyKind::MixedStart { cfg: Rc::clone(cfg), t: *t, i: *i, pad: *pad },
            PolyKind::MixedMid { cfg, t, i } => PolyKind::MixedMid { cfg: Rc::clone(cfg), t: *t, i: *i },
            PolyKind::MixedEnd { cfg, t, i } => PolyKind::MixedEnd { cfg: Rc::clone(cfg), t: *t, i: *i },
        }
    }
}

/// The product of the values.
fn prod_arr(args: &[Fe]) -> (r: Fe)
    ensures
        r.val() == fprod(vals(args@)),
{
    let mut acc = Fe::one();
    let mut i: usize = 0;
    proof {
        assert(vals(args@).take(0) =~= Seq::<nat>::empty());
        crate::field::lemma_fm_canonical(1);
    }
    while i < args.len()
        invariant
            i <= args@.len(),
            acc.val() == fprod(vals(args@).take(i as int)),
        decreases args@.len() - i,
    {
        proof {
            assert(vals(args@).take(i + 1).drop_last() =~= vals(args@).take(i as int));
        }
        acc = acc.mul(&args[i]);
        i = i + 1;
    }
    proof {
        assert(vals(args@).take(i as int) =~= vals(args@));
    }
    acc
}

/// The selection of a vector by the Lagrange basis in the last input.
fn choice_combine(args: &[Fe], n: usize, q: usize) -> (r: Vec<Fe>)
    requires
        2 <= n < 30,
        n * q + 1 <= usize::MAX,
        args@.len() == n * q + 1,
    ensures
        r@.len() == q,
        forall|j: int| 0 <= j < q ==> (#[trigger] r@[j]).val() == choice_sum(vals(args@), n as nat, q as nat, j, n as int),
{
    let index = args[n * q];
    let coeffs = lagrange_choice_batched(index, n as u64);
    let ghost v = vals(args@);
    let mut ret: Vec<Fe> = Vec::new();
    let mut j: usize = 0;
    while j < q
        invariant
            2 <= n < 30,
            n * q + 1 <= usize::MAX,
            args@.len() == n * q + 1,
            v == vals(args@),
            index == args@[(n * q) as int],
            coeffs@.len() == n,
            forall|t: int| 0 <= t < n ==> #[trigger] coeffs@[t].val() == lagrange_val(index.val(), t as nat, n as nat),
            j <= q,
            ret@.len() == j,
            forall|jj: int| 0 <= jj < j ==> (#[trigger] ret@[jj]).val() == choice_sum(v, n as nat, q as nat, jj, n as int),
        decreases q - j,
    {
        let mut acc = Fe::zero();
        let mut i: usize = 0;
        while i < n
            invariant
                2 <= n < 30,
                n * q + 1 <= usize::MAX,
                args@.len() == n * q + 1,
                v == vals(args@),
                index == args@[(n * q) as int],
                coeffs@.len() == n,
                forall|t: int| 0 <= t < n ==> #[trigger] coeffs@[t].val() == lagrange_val(index.val(), t as nat, n as nat),
                j < q,
                i <= n,
                acc.val() == choice_sum(v, n as nat, q as nat, j as int, i as int),
            decreases n - i,
        {
            proof {
                assert(i * q + j < n * q) by (nonlinear_arith)
                    requires
                        i < n,
                        j < q,
                ;
                assert(i * q <= n * q) by (nonlinear_arith)
                    requires
                        i < n,
                ;
            }
            let term = args[i * q + j].mul(&coeffs[i]);
            acc = acc.add(&term);
            i = i + 1;
        }
        ret.push(acc);
        j = j + 1;
    }
    ret
}

/// `sum_i base^i l_i - x` on `(l_0, ..., l_{n-1}, x)`, by Horner's rule.
fn limb_recompose(args: &[Fe], n: usize, base: u64) -> (r: Fe)
    requires
        args@.len() == n + 1,
    ensures
        r.val() == fsub(poly_eval(vals(args@).take(n as int), base as nat), args@[n as int].val()),
{
    let b = Fe::from_u64(base);
    let mut acc = Fe::zero();
    let mut i: usize = n;
    proof {
        assert(vals(args@).take(n as int).skip(n as int) =~= Seq::<nat>::empty());
    }
    while i > 0
        invariant
            args@.len() == n + 1,
            i <= n,
            b.val() == base as nat,
            acc.val() == poly_eval(vals(args@).take(n as int).skip(i as int), base as nat),
        decreases i,
    {
        let ghost c = vals(args@).take(n as int);
        proof {
            assert(c.skip(i - 1).drop_first() =~= c.skip(i as int));
            assert(c.skip(i - 1)[0] == args@[i - 1].val());
            crate::field::lemma_fmul_comm(acc.val(), b.val());
        }
        acc = acc.mul(&b).add(&args[i - 1]);
        i = i - 1;
    }
    proof {
        assert(vals(args@).take(n as int).skip(0) =~= vals(args@).take(n as int));
    }
    acc.sub(&args[n])
}

/// `2^k` for `2^k` that fits.
fn pow2_usize(k: usize) -> (r: usize)
    requires
        chunk_wf(k),
    ensures
        r == pow2(k as nat),
{
    let mut r: usize = 1;
    let mut e: usize = 0;
    proof {
        vstd::arithmetic::power2::lemma2_to64();
    }
    while e < k
        invariant
            chunk_wf(k),
            e <= k,
            r == pow2(e as nat),
        decreases k - e,
    {
        proof {
            vstd::arithmetic::power2::lemma_pow2_unfold((e + 1) as nat);
            if e + 1 < k {
                vstd::arithmetic::power2::lemma_pow2_strictly_increases((e + 1) as nat, k as nat);
            }
        }
        r = r * 2;
        e = e + 1;
    }
    r
}

/// `5^k` for `5^k` that fits.
fn pow5_usize(k: usize) -> (r: usize)
    requires
        pow(5, k as nat) <= usize::MAX,
    ensures
        r == pow(5, k as nat),
{
    let mut r: usize = 1;
    let mut e: usize = 0;
    proof {
        vstd::arithmetic::power::lemma_pow0(5);
    }
    while e < k
        invariant
            pow(5, k as nat) <= usize::MAX,
            e <= k,
            r == pow(5, e as nat),
        decreases k - e,
    {
        proof {
            vstd::arithmetic::power::lemma_pow_adds(5, e as nat, 1);
            vstd::arithmetic::power::lemma_pow1(5);
            vstd::arithmetic::power::lemma_pow_increases(5, (e + 1) as nat, k as nat);
        }
        r = r * 5;
        e = e + 1;
    }
    r
}

/// The state that the inputs give: with `pad`, a zero in front.
fn pad_state(x: &[Fe], pad: bool) -> (r: Vec<Fe>)
    ensures
        vals(r@) == padded(x@, pad),
        r@.len() == if pad { x@.len() + 1 } else { x@.len() },
{
    let mut out: Vec<Fe> = Vec::new();
    if pad {
        out.push(Fe::zero());
    }
    let mut i: usize = 0;
    while i < x.len()
        invariant
            i <= x@.len(),
            out@.len() == if pad { i + 1 } else { i as int },
            vals(out@) == if pad { seq![0nat] + vals(x@.take(i as int)) } else { vals(x@.take(i as int)) },
        decreases x@.len() - i,
    {
        proof {
            assert(vals(x@.take(i + 1)) =~= vals(x@.take(i as int)).push(x@[i as int].val()));
        }
        let ghost before = vals(out@);
        out.push(x[i]);
        proof {
            assert(vals(out@) =~= before.push(x@[i as int].val()));
            if pad {
                assert(vals(out@) =~= seq![0nat] + vals(x@.take(i + 1)));
            } else {
                assert(vals(out@) =~= vals(x@.take(i + 1)));
            }
        }
        i = i + 1;
    }
    proof {
        assert(x@.take(i as int) =~= x@);
    }
    out
}

/// The values of a polynomial map.
pub fn apply_poly(p: &PolyKind, x: &[Fe]) -> (r: Vec<Fe>)
    requires
        poly_wf(*p),
        x@.len() == poly_i(*p),
    ensures
        vals(r@) == poly_out(*p, x@),
        r@.len() == poly_o(*p),
{
    let mut out: Vec<Fe> = Vec::new();
    match p {
        PolyKind::Sum { n } => {
            proof {
                assert(x@.take(*n as int) =~= x@);
            }
            out.push(sum_arr(x));
        },
        PolyKind::Lc { coeffs } => {
            proof {
                assert(x@.take(coeffs@.len() as int) =~= x@);
            }
            out.push(inner_prod(coeffs.as_slice(), x));
        },
        PolyKind::Qc { n } => {
            let a = vstd::slice::slice_subrange(x, 0, *n);
            let b = vstd::slice::slice_subrange(x, *n, 2 * *n);
            proof {
                assert(a@ =~= x@.take(*n as int));
            }
            out.push(inner_prod(a, b));
        },
        PolyKind::Prod { n } => {
            proof {
                assert(x@.take(*n as int) =~= x@);
            }
            out.push(prod_arr(x));
        },
        PolyKind::Choice { n, q } => {
            out = choice_combine(x, *n, *q);
            proof {
                assert(vals(out@) =~= poly_out(*p, x@));
            }
        },
        PolyKind::DistinctX3 => {
            out.push(x[0].sub(&x[1]).mul(&x[0].sub(&x[2])).mul(&x[1].sub(&x[2])));
        },
        PolyKind::Diff => {
            out.push(x[0].sub(&x[1]));
        },
        PolyKind::PoseidonRounds { cfg, t, i, k, pad } => {
            let state = pad_state(x, *pad);
            let consts = &cfg.constants;
            out = poseidon_kround_poly(
                *k,
                state.as_slice(),
                *i,
                &consts.c[*t - 2],
                &consts.m[*t - 2],
                consts.n_rounds_f,
                consts.n_rounds_p[*t - 2],
                *t,
            );
        },
        PolyKind::MixedStart { cfg, t, i, pad } => {
            let state = pad_state(x, *pad);
            out = poseidon_mixed_strategy_start(state.as_slice(), *i, cfg);
        },
        PolyKind::MixedMid { cfg, t, i } => {
            out = poseidon_mixed_strategy_mid(x, *i, cfg);
        },
        PolyKind::MixedEnd { cfg, t, i } => {
            out = poseidon_mixed_strategy_end(x, *i, cfg);
        },
    }
    proof {
        assert(vals(out@) =~= poly_out(*p, x@));
    }
    out
}

impl Gate for LibGate {
    open spec fn spec_d(&self) -> nat {
        kind_d(self.kind())
    }

    open spec fn spec_i(&self) -> nat {
        kind_i(self.kind())
    }

    open spec fn spec_o(&self) -> nat {
        kind_o(self.kind())
    }

    open spec fn spec_exec(&self, input: Seq<Fe>) -> Seq<nat> {
        kind_out(self.kind(), input)
    }

    fn d(&self) -> (r: usize) {
        proof {
            use_type_invariant(self);
        }
        match &self.kind {
            GateKind::Arith { .. } => 2,
            GateKind::ReadConst { .. } => 1,
            GateKind::NonzeroCheck => 2,
            GateKind::Bitcheck => 2,
            GateKind::BitDecomp { .. } => 1,
            GateKind::ChunkCheck { k } => pow2_usize(*k),
            GateKind::ChunkDecomp { .. } => 1,
            GateKind::RangeCheck { range } => *range,
            GateKind::LimbDecomp { .. } => 1,
            GateKind::LcConstr { .. } => 1,
            GateKind::SumOfFractions { k } => *k + 1,
            GateKind::FracsumWithNums { dens } => dens.len() + 1,
            GateKind::OnCurve { .. } => 3,
            GateKind::Collinear => 2,
            GateKind::Tangent => 2,
            GateKind::TripleCheck => 8,
            GateKind::Applied { poly } => match poly {
                PolyKind::Sum { .. } => 1,
                PolyKind::Lc { .. } => 1,
                PolyKind::Qc { .. } => 2,
                PolyKind::Prod { n } => *n,
                PolyKind::Choice { n, .. } => *n,
                PolyKind::DistinctX3 => 3,
                PolyKind::Diff => 1,
                PolyKind::PoseidonRounds { k, .. } => pow5_usize(*k),
                PolyKind::MixedStart { .. } => 5,
                PolyKind::MixedMid { .. } => 25,
                PolyKind::MixedEnd { .. } => 5,
            },
            GateKind::PoseidonPartial { .. } => 5,
        }
    }

    fn i(&self) -> (r: usize) {
        proof {
            use_type_invariant(self);
        }
        match &self.kind {
            GateKind::Arith { .. } => 3,
            GateKind::ReadConst { .. } => 1,
            GateKind::NonzeroCheck => 2,
            GateKind::Bitcheck => 1,
            GateKind::BitDecomp { n } => *n + 1,
            GateKind::ChunkCheck { .. } => 1,
            GateKind::ChunkDecomp { n, .. } => *n + 1,
            GateKind::RangeCheck { .. } => 1,
            GateKind::LimbDecomp { n, .. } => *n + 1,
            GateKind::LcConstr { coeffs } => coeffs.len(),
            GateKind::SumOfFractions { k } => *k + 2,
            GateKind::FracsumWithNums { dens } => dens.len() + 2,
            GateKind::OnCurve { .. } => 2,
            GateKind::Collinear => 6,
            GateKind::Tangent => 4,
            GateKind::TripleCheck => 5,
            GateKind::Applied { poly } => {
                let pi = match poly {
                    PolyKind::Sum { n } => *n,
                    PolyKind::Lc { coeffs } => coeffs.len(),
                    PolyKind::Qc { n } => 2 * *n,
                    PolyKind::Prod { n } => *n,
                    PolyKind::Choice { n, q } => *n * *q + 1,
                    PolyKind::DistinctX3 => 3,
                    PolyKind::Diff => 2,
                    PolyKind::PoseidonRounds { t, pad, .. } => if *pad { *t - 1 } else { *t },
                    PolyKind::MixedStart { t, pad, .. } => if *pad { *t - 1 } else { *t },
                    PolyKind::MixedMid { t, .. } => *t,
                    PolyKind::MixedEnd { t, .. } => *t,
                };
                let po = match poly {
                    PolyKind::Choice { q, .. } => *q,
                    PolyKind::PoseidonRounds { t, .. } => *t,
                    PolyKind::MixedStart { t, .. } => *t,
                    PolyKind::MixedMid { t, .. } => *t,
                    PolyKind::MixedEnd { t, .. } => *t,
                    _ => 1,
                };
                pi + po
            },
            GateKind::PoseidonPartial { cfg, t } => 2 * cfg.constants.n_rounds_p[*t - 2] + 2 * *t,
        }
    }

    fn o(&self) -> (r: usize) {
        proof {
            use_type_invariant(self);
        }
        match &self.kind {
            GateKind::TripleCheck => 3,
            GateKind::Applied { poly } => match poly {
                PolyKind::Choice { q, .. } => *q,
                PolyKind::PoseidonRounds { t, .. } => *t,
                PolyKind::MixedStart { t, .. } => *t,
                PolyKind::MixedMid { t, .. } => *t,
                PolyKind::MixedEnd { t, .. } => *t,
                _ => 1,
            },
            GateKind::PoseidonPartial { cfg, t } => cfg.constants.n_rounds_p[*t - 2] + *t,
            _ => 1,
        }
    }

    #[verifier::rlimit(60)]
    fn exec(&self, input: &[Fe]) -> (r: Vec<Fe>) {
        proof {
            use_type_invariant(self);
        }
        let ghost x = input@;
        let mut out: Vec<Fe> = Vec::new();
        match &self.kind {
            GateKind::Arith { smul, sa, sb, sconst } => {
                let (a, b, c) = (input[0], input[1], input[2]);
                out.push(smul.mul(&a).mul(&b).add(&sa.mul(&a)).add(&sb.mul(&b)).add(sconst).sub(&c));
            },
            GateKind::ReadConst { c } => {
                out.push(input[0].sub(c));
            },
            GateKind::NonzeroCheck => {
                out.push(input[0].mul(&input[1]).sub(&Fe::one()));
            },
            GateKind::Bitcheck => {
                out.push(input[0].mul(&input[0]).sub(&input[0]));
            },
            GateKind::BitDecomp { .. } => {
                out = bits::decompcheck(input);
            },
            GateKind::ChunkCheck { k } => {
                out = bit_chunks::chunkcheck(input, *k);
            },
            GateKind::ChunkDecomp { k, .. } => {
                out = bit_chunks::decompcheck(input, *k);
            },
            GateKind::RangeCheck { range } => {
                out.push(rangecheck(input[0], *range as u64));
            },
            GateKind::LimbDecomp { n, base } => {
                out.push(limb_recompose(input, *n, *base));
            },
            GateKind::LcConstr { coeffs } => {
                out.push(inner_prod(coeffs.as_slice(), input));
            },
            GateKind::SumOfFractions { k } => {
                out.push(sum_of_fractions(input, *k));
            },
            GateKind::FracsumWithNums { dens } => {
                out.push(sum_of_fractions_with_nums(input, dens.as_slice(), dens.len()));
            },
            GateKind::OnCurve { a, b } => {
                let (px, py) = (input[0], input[1]);
                out.push(px.mul(&px).mul(&px).add(&a.mul(&px)).add(b).sub(&py.mul(&py)));
            },
            GateKind::Collinear => {
                let a = input[2].sub(&input[0]);
                let b = input[3].sub(&input[1]);
                let c = input[4].sub(&input[0]);
                let d = Fe::zero().sub(&input[5]).sub(&input[1]);
                out.push(a.mul(&d).sub(&b.mul(&c)));
            },
            GateKind::Tangent => {
                let a = input[2].sub(&input[0]);
                let b = Fe::zero().sub(&input[3]).sub(&input[1]);
                let c = input[1].mul(&Fe::from_u64(2));
                let d = input[0].mul(&input[0]).mul(&Fe::from_u64(3));
                out.push(a.mul(&d).sub(&b.mul(&c)));
            },
            GateKind::TripleCheck => {
                let q = input[4];
                let p1 = double_proj((input[0], input[1]));
                let p2 = add_proj((input[2], input[3]), (input[0], Fe::zero().sub(&input[1])));
                out.push(p2.0.sub(&p1.0.mul(&q)));
                out.push(p2.1.sub(&p1.1.mul(&q)));
                out.push(p2.2.sub(&p1.2.mul(&q)));
            },
            GateKind::Applied { poly } => {
                let k = input.len() - self.o();
                let args = vstd::slice::slice_subrange(input, 0, k);
                let vals_out = apply_poly(poly, args);
                let mut j: usize = 0;
                while j < vals_out.len()
                    invariant
                        x == input@,
                        k == poly_i(*poly),
                        x.len() == poly_i(*poly) + poly_o(*poly),
                        poly_i(*poly) + poly_o(*poly) <= usize::MAX,
                        vals(vals_out@) == poly_out(*poly, x.take(k as int)),
                        vals_out@.len() == poly_o(*poly),
                        j <= vals_out@.len(),
                        out@.len() == j,
                        forall|jj: int| 0 <= jj < j ==> (#[trigger] out@[jj]).val() == fsub(
                            poly_out(*poly, x.take(k as int))[jj],
                            x[k + jj].val(),
                        ),
                    decreases vals_out@.len() - j,
                {
                    out.push(vals_out[j].sub(&input[k + j]));
                    j = j + 1;
                }
                proof {
                    assert(args@ =~= x.take(k as int));
                }
            },
            GateKind::PoseidonPartial { cfg, t } => {
                let consts = &cfg.constants;
                let np = consts.n_rounds_p[*t - 2];
                let adv_in = vstd::slice::slice_subrange(input, 0, np);
                let adv_out = vstd::slice::slice_subrange(input, np, 2 * np);
                let inp = vstd::slice::slice_subrange(input, 2 * np, 2 * np + *t);
                let outp = vstd::slice::slice_subrange(input, 2 * np + *t, 2 * np + 2 * *t);
                out = poseidon_partial_rounds_constraint(
                    inp,
                    outp,
                    adv_in,
                    adv_out,
                    &consts.c[*t - 2],
                    &consts.m[*t - 2],
                    consts.n_rounds_f,
                    np,
                    *t,
                );
                proof {
                    let npn = np as nat;
                    let tn = *t as nat;
                    assert(adv_in@ =~= x.subrange(0, npn as int));
                    assert(adv_out@ =~= x.subrange(npn as int, (2 * npn) as int));
                    assert(inp@ =~= x.subrange((2 * npn) as int, (2 * npn + tn) as int));
                    assert(outp@ =~= x.subrange((2 * npn + tn) as int, (2 * npn + 2 * tn) as int));
                    assert forall|j: int| 0 <= j < out@.len() implies #[trigger] vals(out@)[j] == partial_out(cfg.constants, tn, x)[j] by {
                        if j < npn {
                            assert(vals(out@)[j] == out@[j].val());
                        } else {
                            let k = j - npn;
                            assert(out@[npn + k] == out@[j]);
                        }
                    }
                    assert(vals(out@) =~= partial_out(cfg.constants, tn, x));
                }
            },
        }
        proof {
            assert(vals(out@) =~= kind_out(self.kind, x));
        }
        out
    }
}

/// `mat_fits`, computed.
fn mat_fits_exec(m: &Vec<Vec<Fe>>, n: usize) -> (r: bool)
    ensures
        r == mat_fits(m@, n as nat),
{
    if m.len() < n {
        return false;
    }
    let mut i: usize = 0;
    while i < n
        invariant
            m@.len() >= n,
            i <= n,
            forall|j: int| 0 <= j < i ==> (#[trigger] m@[j])@.len() >= n,
        decreases n - i,
    {
        if m[i].len() < n {
            return false;
        }
        i = i + 1;
    }
    true
}

/// The constants have the tables of width `t`.
fn has_width(k: &Constants, t: usize) -> (r: bool)
    ensures
        r == (t >= 2 && t - 2 < k.c@.len() && t - 2 < k.m@.len() && t - 2 < k.n_rounds_p@.len()),
{
    t >= 2 && t - 2 < k.c.len() && t - 2 < k.m.len() && t - 2 < k.n_rounds_p.len()
}

/// A product of two numbers of at most 64 bits fits 128 bits.
proof fn lemma_prod_fits(a: nat, b: nat)
    requires
        a <= 0x1_0000_0000_0000_0000,
        b < 0x1_0000_0000_0000_0000,
    ensures
        a * b + 0x1_0000_0000_0000_0000 <= 0x1_0000_0000_0000_0000_0000_0000_0000_0000,
{
    assert(a * b <= 0x1_0000_0000_0000_0000 * 0xffff_ffff_ffff_ffff) by (nonlinear_arith)
        requires
            a <= 0x1_0000_0000_0000_0000,
            b <= 0xffff_ffff_ffff_ffff,
    ;
}

/// `cfg_fits`, computed.
fn cfg_fits_exec(k: &Constants, t: usize, last: usize) -> (r: bool)
    ensures
        r == cfg_fits(*k, t as nat, last as nat),
{
    if !has_width(k, t) {
        return false;
    }
    let np = k.n_rounds_p[t - 2];
    let sum_ok = ((k.n_rounds_f / 2) as u128) + (np as u128) <= (usize::MAX as u128);
    proof {
        lemma_prod_fits((last + 1) as nat, t as nat);
    }
    let need: u128 = ((last as u128) + 1) * (t as u128);
    let len_ok = need <= (k.c[t - 2].len() as u128);
    sum_ok && len_ok && mat_fits_exec(&k.m[t - 2], t)
}

/// `5^r` fits a `usize`.
fn pow5_fits(r: usize) -> (b: bool)
    ensures
        b == (pow(5, r as nat) <= usize::MAX),
{
    let mut p: usize = 1;
    let mut e: usize = 0;
    proof {
        vstd::arithmetic::power::lemma_pow0(5);
    }
    while e < r
        invariant
            e <= r,
            p == pow(5, e as nat),
        decreases r - e,
    {
        proof {
            vstd::arithmetic::power::lemma_pow_adds(5, e as nat, 1);
            vstd::arithmetic::power::lemma_pow1(5);
        }
        if p > usize::MAX / 5 {
            proof {
                vstd::arithmetic::power::lemma_pow_increases(5, (e + 1) as nat, r as nat);
            }
            return false;
        }
        p = p * 5;
        e = e + 1;
    }
    true
}

/// `rounds_fit`, computed.
fn rounds_fit_exec(k: &Constants, t: usize, i: usize, r: usize) -> (b: bool)
    ensures
        b == rounds_fit(*k, t as nat, i as nat, r as nat),
{
    if !has_width(k, t) {
        return false;
    }
    let ir_ok = (i as u128) + (r as u128) <= (usize::MAX as u128);
    if !ir_ok {
        return false;
    }
    let sum_ok = ((k.n_rounds_f / 2) as u128) + (k.n_rounds_p[t - 2] as u128) <= (usize::MAX as u128);
    let len_ok = if r == 0 {
        true
    } else {
        proof {
            lemma_prod_fits((i + r - 1) as nat, t as nat);
        }
        let need: u128 = ((i as u128) + (r as u128) - 1) * (t as u128) + (t as u128);
        need <= (k.c[t - 2].len() as u128)
    };
    ir_ok && sum_ok && len_ok && mat_fits_exec(&k.m[t - 2], t) && pow5_fits(r)
}

/// `poly_wf` with the size bound of a library gate, computed.
fn poly_fits(p: &PolyKind) -> (r: bool)
    ensures
        r == (poly_wf(*p) && poly_i(*p) + poly_o(*p) <= usize::MAX),
{
    let max = usize::MAX as u128;
    match p {
        PolyKind::Sum { n } => (*n as u128) + 1 <= max,
        PolyKind::Lc { coeffs } => (coeffs.len() as u128) + 1 <= max,
        PolyKind::Qc { n } => 2 * (*n as u128) + 1 <= max,
        PolyKind::Prod { n } => (*n as u128) + 1 <= max,
        PolyKind::Choice { n, q } => {
            if *n < 2 || *n >= 30 {
                false
            } else {
                proof {
                    assert((*n as int) * (*q as int) <= 29 * 0xffff_ffff_ffff_ffff) by (nonlinear_arith)
                        requires
                            *n < 30,
                            *q <= 0xffff_ffff_ffff_ffff,
                    ;
                }
                (*n as u128) * (*q as u128) + 1 + (*q as u128) <= max
            }
        },
        PolyKind::DistinctX3 => true,
        PolyKind::Diff => true,
        PolyKind::PoseidonRounds { cfg, t, i, k, pad } => {
            let fits = rounds_fit_exec(&cfg.constants, *t, *i, *k);
            fits && (if *pad { (*t as u128) - 1 } else { *t as u128 }) + (*t as u128) <= max
        },
        PolyKind::MixedStart { cfg, t, i, pad } => {
            (*i as u128) + 1 <= max && cfg_fits_exec(&cfg.constants, *t, *i + 1)
                && (if *pad { (*t as u128) - 1 } else { *t as u128 }) + (*t as u128) <= max
        },
        PolyKind::MixedMid { cfg, t, i } => {
            (*i as u128) + 1 <= max && cfg_fits_exec(&cfg.constants, *t, *i + 1) && 2 * (*t as u128) <= max
        },
        PolyKind::MixedEnd { cfg, t, i } => cfg_fits_exec(&cfg.constants, *t, *i) && 2 * (*t as u128) <= max,
    }
}

/// `chunk_wf`, computed.
fn chunk_fits(k: usize) -> (r: bool)
    ensures
        r == chunk_wf(k),
{
    if k >= 64 {
        return false;
    }
    let mut p: u128 = 1;
    let mut e: usize = 0;
    proof {
        vstd::arithmetic::power2::lemma2_to64();
    }
    while e < k
        invariant
            e <= k < 64,
            p == pow2(e as nat),
        decreases k - e,
    {
        proof {
            vstd::arithmetic::power2::lemma_pow2_unfold((e + 1) as nat);
            vstd::arithmetic::power2::lemma_pow2_strictly_increases((e + 1) as nat, 64);
            vstd::arithmetic::power2::lemma2_to64();
        }
        p = p * 2;
        e = e + 1;
    }
    p <= (usize::MAX as u128)
}

/// `kind_wf`, computed.
fn kind_fits(kind: &GateKind) -> (r: bool)
    ensures
        r == kind_wf(*kind),
{
    let max = usize::MAX as u128;
    match kind {
        GateKind::BitDecomp { n } => (*n as u128) + 1 <= max,
        GateKind::ChunkCheck { k } => chunk_fits(*k),
        GateKind::ChunkDecomp { n, k } => (*n as u128) + 1 <= max && *k < 64,
        GateKind::RangeCheck { range } => 1 <= *range && *range <= 50,
        GateKind::LimbDecomp { n, .. } => (*n as u128) + 1 <= max,
        GateKind::SumOfFractions { k } => (*k as u128) + 2 <= max,
        GateKind::FracsumWithNums { dens } => (dens.len() as u128) + 2 <= max,
        GateKind::Applied { poly } => poly_fits(poly),
        GateKind::PoseidonPartial { cfg, t } => {
            let consts = &cfg.constants;
            if !has_width(consts, *t) {
                false
            } else {
                let np = consts.n_rounds_p[*t - 2];
                let nf = consts.n_rounds_f;
                let sizes = 2 * (np as u128) + 2 * (*t as u128) <= max;
                let sum = ((nf / 2) as u128) + (np as u128) <= max;
                if !sum {
                    false
                } else {
                    let len_ok = if np == 0 {
                        true
                    } else {
                        proof {
                            lemma_prod_fits(*t as nat, (np - 1 + nf / 2) as nat);
                        }
                        (*t as u128) * ((np as u128) - 1 + ((nf / 2) as u128)) + (*t as u128) <= (consts.c[*t - 2].len() as u128)
                    };
                    sizes && len_ok && mat_fits_exec(&consts.m[*t - 2], *t)
                }
            }
        },
        _ => true,
    }
}

impl LibGate {
    /// A library gate of a kind, when its parameters fit; `None` otherwise.
    pub fn try_new(kind: GateKind) -> (r: Option<Self>)
        ensures
            r is Some <==> kind_wf(kind),
            r matches Some(g) ==> g.kind() == kind,
    {
        if kind_fits(&kind) {
            Some(LibGate { kind })
        } else {
            None
        }
    }
}

} // verus!
