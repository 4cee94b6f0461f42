//! The Poseidon permutation over the scalar field: round constants, the
//! fifth-power S-box on all or on the first element, and the MDS mix.

use vstd::prelude::*;
use crate::field::{Fe, fadd, fmul, fsum, fm, vals};

verus! {

/// Round constants and MDS matrices, one of each per state width `t`
/// (index `t - 2`), and the numbers of full and of partial rounds.
pub struct Constants {
    pub c: Vec<Vec<Fe>>,
    pub m: Vec<Vec<Vec<Fe>>>,
    pub n_rounds_f: usize,
    pub n_rounds_p: Vec<usize>,
}

/// The Poseidon hash with its constants.
pub struct Poseidon {
    pub constants: Constants,
}

/// `x^5`, computed as `(x^2)^2 * x`.
pub open spec fn pow5(x: nat) -> nat {
    fmul(fmul(fmul(x, x), fmul(x, x)), x)
}

/// The S-box is the fifth power in the field: `pow5(x)` is `x^5` reduced
/// modulo the field's modulus.
pub proof fn law_pow5_is_fifth_power(x: nat)
    ensures
        pow5(x) == (x * x * x * x * x) % crate::field::field_modulus(),
{
    let m = crate::field::field_modulus() as int;
    let s = x * x;
    vstd::arithmetic::div_mod::lemma_mul_mod_noop_general(s as int, s as int, m);
    vstd::arithmetic::div_mod::lemma_mul_mod_noop_general((s * s) as int, x as int, m);
    vstd::arithmetic::div_mod::lemma_mod_bound((s * s) as int, m);
    vstd::arithmetic::div_mod::lemma_mod_bound(x as int, m);
    vstd::arithmetic::div_mod::lemma_mod_twice((s * s) as int, m);
    assert(s * s * x == x * x * x * x * x) by (nonlinear_arith)
        requires
            s == x * x,
    ;
}

/// The field sum of products is the residue of the integer sum of products.
proof fn lemma_fsum_products(a: Seq<nat>, b: Seq<nat>, n: nat)
    requires
        n <= a.len(),
        n <= b.len(),
    ensures
        fsum(Seq::new(n, |j: int| fmul(a[j], b[j]))) == fm(crate::witness::sum_to(|j: int| (a[j] * b[j]) as int, n)),
    decreases n,
{
    let s = Seq::new(n, |j: int| fmul(a[j], b[j]));
    if n == 0 {
        crate::field::lemma_fm_canonical(0);
    } else {
        let m = (n - 1) as nat;
        lemma_fsum_products(a, b, m);
        assert(s.drop_last() =~= Seq::new(m, |j: int| fmul(a[j], b[j])));
        let t = crate::witness::sum_to(|j: int| (a[j] * b[j]) as int, m);
        crate::field::lemma_fm_bound((a[m as int] * b[m as int]) as int);
        vstd::arithmetic::div_mod::lemma_add_mod_noop(t, (a[m as int] * b[m as int]) as int, crate::field::field_modulus() as int);
        vstd::arithmetic::div_mod::lemma_mod_twice(t, crate::field::field_modulus() as int);
        vstd::arithmetic::div_mod::lemma_mod_twice((a[m as int] * b[m as int]) as int, crate::field::field_modulus() as int);
    }
}

/// The mix is the matrix times the state: entry `i` is
/// `sum_j m[i][j] * state[j]` reduced modulo the field's modulus.
pub proof fn law_mix_is_matrix_product(state: Seq<nat>, m: Seq<Seq<nat>>, i: int)
    requires
        0 <= i < state.len(),
        m[i].len() >= state.len(),
    ensures
        mix_spec(state, m)[i] == fm(crate::witness::sum_to(|j: int| (m[i][j] * state[j]) as int, state.len())),
{
    lemma_fsum_products(m[i], state, state.len());
    assert(Seq::new(state.len(), |j: int| fmul(m[i][j], state[j])) =~= Seq::new(
        state.len(),
        |j: int| fmul(m[i][j], state[j]),
    ));
}

/// Round `i` is a full round: one of the first or last `nf / 2`.
pub open spec fn is_full_round(nf: nat, np: nat, i: nat) -> bool {
    i < nf / 2 || i >= nf / 2 + np
}

/// Adds the round constants from offset `it`.
pub open spec fn ark_spec(state: Seq<nat>, c: Seq<nat>, it: int) -> Seq<nat> {
    Seq::new(state.len(), |i: int| fadd(state[i], c[it + i]))
}

/// The S-box of round `i`: the fifth power of every element in a full
/// round, of the first one in a partial round.
pub open spec fn sbox_spec(nf: nat, np: nat, state: Seq<nat>, i: nat) -> Seq<nat> {
    if is_full_round(nf, np, i) {
        Seq::new(state.len(), |j: int| pow5(state[j]))
    } else {
        state.update(0, pow5(state[0]))
    }
}

/// Row `i` of `m` times the state.
pub open spec fn row_dot(row: Seq<nat>, state: Seq<nat>) -> nat {
    fsum(Seq::new(state.len(), |j: int| fmul(row[j], state[j])))
}

/// The matrix `m` times the state.
pub open spec fn mix_spec(state: Seq<nat>, m: Seq<Seq<nat>>) -> Seq<nat> {
    Seq::new(state.len(), |i: int| row_dot(m[i], state))
}

/// Round `i`: constants, S-box, mix.
pub open spec fn round_spec(state: Seq<nat>, c: Seq<nat>, m: Seq<Seq<nat>>, nf: nat, np: nat, t: nat, i: nat) -> Seq<nat> {
    mix_spec(sbox_spec(nf, np, ark_spec(state, c, (i * t) as int), i), m)
}

/// Rounds `i, i + 1, ..., i + k - 1`.
pub open spec fn rounds_spec(state: Seq<nat>, c: Seq<nat>, m: Seq<Seq<nat>>, nf: nat, np: nat, t: nat, i: nat, k: nat) -> Seq<nat>
    decreases k,
{
    if k == 0 {
        state
    } else {
        round_spec(rounds_spec(state, c, m, nf, np, t, i, (k - 1) as nat), c, m, nf, np, t, (i + k - 1) as nat)
    }
}

/// The rounds keep the width of the state.
pub proof fn lemma_rounds_len(state: Seq<nat>, c: Seq<nat>, m: Seq<Seq<nat>>, nf: nat, np: nat, t: nat, i: nat, k: nat)
    requires
        state.len() > 0,
    ensures
        rounds_spec(state, c, m, nf, np, t, i, k).len() == state.len(),
    decreases k,
{
    if k > 0 {
        lemma_rounds_len(state, c, m, nf, np, t, i, (k - 1) as nat);
        let prev = rounds_spec(state, c, m, nf, np, t, i, (k - 1) as nat);
        let r = (i + k - 1) as nat;
        let a = ark_spec(prev, c, (r * t) as int);
        assert(a.len() == prev.len());
        assert(sbox_spec(nf, np, a, r).len() == a.len());
        assert(rounds_spec(state, c, m, nf, np, t, i, k) == mix_spec(sbox_spec(nf, np, a, r), m));
    }
}

/// After a round, every element of the state is canonical.
pub proof fn lemma_rounds_lt(state: Seq<nat>, c: Seq<nat>, m: Seq<Seq<nat>>, nf: nat, np: nat, t: nat, i: nat, k: nat)
    requires
        k > 0,
        state.len() > 0,
    ensures
        forall|j: int| 0 <= j < state.len() ==> #[trigger] rounds_spec(state, c, m, nf, np, t, i, k)[j] < crate::field::field_modulus(),
{
    lemma_rounds_len(state, c, m, nf, np, t, i, k);
    let prev = rounds_spec(state, c, m, nf, np, t, i, (k - 1) as nat);
    let mixed = sbox_spec(nf, np, ark_spec(prev, c, ((i + k - 1) * t) as int), (i + k - 1) as nat);
    assert forall|j: int| 0 <= j < state.len() implies #[trigger] rounds_spec(state, c, m, nf, np, t, i, k)[j] < crate::field::field_modulus() by {
        let row = Seq::new(mixed.len(), |a: int| fmul(m[j][a], mixed[a]));
        if row.len() > 0 {
            crate::field::lemma_fm_bound((fsum(row.drop_last()) + row.last()) as int);
        }
    }
}

/// Rounds `i..i + a`, then `i + a..i + a + b`, are rounds `i..i + a + b`.
pub proof fn lemma_rounds_concat(state: Seq<nat>, c: Seq<nat>, m: Seq<Seq<nat>>, nf: nat, np: nat, t: nat, i: nat, a: nat, b: nat)
    ensures
        rounds_spec(rounds_spec(state, c, m, nf, np, t, i, a), c, m, nf, np, t, i + a, b) == rounds_spec(
            state,
            c,
            m,
            nf,
            np,
            t,
            i,
            a + b,
        ),
    decreases b,
{
    if b > 0 {
        lemma_rounds_concat(state, c, m, nf, np, t, i, a, (b - 1) as nat);
        assert((i + a + b - 1) as nat == (i + (a + b) - 1) as nat);
    }
}

/// Values of a matrix.
pub open spec fn mat_vals(m: Seq<Vec<Fe>>) -> Seq<Seq<nat>> {
    Seq::new(m.len(), |i: int| vals(m[i]@))
}

/// `m` has at least `n` rows of at least `n` entries.
pub open spec fn mat_fits(m: Seq<Vec<Fe>>, n: nat) -> bool {
    &&& m.len() >= n
    &&& forall|i: int| 0 <= i < n ==> (#[trigger] m[i])@.len() >= n
}

/// Adds the round constants `c[it..]` to the state.
pub fn ark(state: &mut Vec<Fe>, c: &Vec<Fe>, it: usize)
    requires
        it + old(state)@.len() <= c@.len(),
    ensures
        vals(final(state)@) == ark_spec(vals(old(state)@), vals(c@), it as int),
        final(state)@.len() == old(state)@.len(),
{
    let ghost s0 = vals(state@);
    let clen = c.len();
    let mut i: usize = 0;
    while i < state.len()
        invariant
            clen == c@.len(),
            it + old(state)@.len() <= c@.len(),
            state@.len() == old(state)@.len(),
            s0 == vals(old(state)@),
            i <= state@.len(),
            forall|k: int| 0 <= k < i ==> (#[trigger] state@[k]).val() == fadd(s0[k], c@[it + k].val()),
            forall|k: int| i <= k < state@.len() ==> #[trigger] state@[k] == old(state)@[k],
        decreases state@.len() - i,
    {
        let x = state[i].add(&c[it + i]);
        state.set(i, x);
        i = i + 1;
    }
    proof {
        assert(vals(state@) =~= ark_spec(s0, vals(c@), it as int));
    }
}

/// `x^5`.
fn fifth(x: &Fe) -> (r: Fe)
    ensures
        r.val() == pow5(x.val()),
{
    let sq = x.square();
    let q = sq.square();
    q.mul(x)
}

/// The S-box of round `i`.
pub fn sbox(n_rounds_f: usize, n_rounds_p: usize, state: &mut Vec<Fe>, i: usize)
    requires
        n_rounds_f / 2 + n_rounds_p <= usize::MAX,
        !is_full_round(n_rounds_f as nat, n_rounds_p as nat, i as nat) ==> old(state)@.len() > 0,
    ensures
        vals(final(state)@) == sbox_spec(n_rounds_f as nat, n_rounds_p as nat, vals(old(state)@), i as nat),
        final(state)@.len() == old(state)@.len(),
{
    let ghost s0 = vals(state@);
    if i < n_rounds_f / 2 || i >= n_rounds_f / 2 + n_rounds_p {
        let mut j: usize = 0;
        while j < state.len()
            invariant
                state@.len() == old(state)@.len(),
                s0 == vals(old(state)@),
                j <= state@.len(),
                forall|k: int| 0 <= k < j ==> (#[trigger] state@[k]).val() == pow5(s0[k]),
                forall|k: int| j <= k < state@.len() ==> #[trigger] state@[k] == old(state)@[k],
            decreases state@.len() - j,
        {
            let x = fifth(&state[j]);
            state.set(j, x);
            j = j + 1;
        }
        proof {
            assert(vals(state@) =~= sbox_spec(n_rounds_f as nat, n_rounds_p as nat, s0, i as nat));
        }
    } else {
        let x = fifth(&state[0]);
        state.set(0, x);
        proof {
            assert(vals(state@) =~= sbox_spec(n_rounds_f as nat, n_rounds_p as nat, s0, i as nat));
        }
    }
}

/// The matrix `m` times the state.
pub fn mix(state: &Vec<Fe>, m: &Vec<Vec<Fe>>) -> (r: Vec<Fe>)
    requires
        mat_fits(m@, state@.len()),
    ensures
        vals(r@) == mix_spec(vals(state@), mat_vals(m@)),
        r@.len() == state@.len(),
{
    let ghost s = vals(state@);
    let mut new_state: Vec<Fe> = Vec::new();
    let mut i: usize = 0;
    while i < state.len()
        invariant
            mat_fits(m@, state@.len()),
            s == vals(state@),
            i <= state@.len(),
            new_state@.len() == i,
            forall|k: int| 0 <= k < i ==> (#[trigger] new_state@[k]).val() == row_dot(vals(m@[k]@), s),
        decreases state@.len() - i,
    {
        let ghost terms = Seq::new(s.len(), |j: int| fmul(vals(m@[i as int]@)[j], s[j]));
        let mut acc = Fe::zero();
        let mut j: usize = 0;
        while j < state.len()
            invariant
                mat_fits(m@, state@.len()),
                i < state@.len(),
                s == vals(state@),
                terms == Seq::new(s.len(), |jj: int| fmul(vals(m@[i as int]@)[jj], s[jj])),
                j <= state@.len(),
                acc.val() == fsum(terms.take(j as int)),
            decreases state@.len() - j,
        {
            let mij = m[i][j].mul(&state[j]);
            acc = acc.add(&mij);
            proof {
                assert(terms.take(j + 1).drop_last() =~= terms.take(j as int));
            }
            j = j + 1;
        }
        proof {
            assert(terms.take(j as int) =~= terms);
        }
        new_state.push(acc);
        i = i + 1;
    }
    proof {
        assert(vals(new_state@) =~= mix_spec(s, mat_vals(m@)));
    }
    new_state
}

/// One round `i` of width `t` on the state: constants from offset `i * t`,
/// S-box, mix.
fn one_round(state: &Vec<Fe>, i: usize, c: &Vec<Fe>, m: &Vec<Vec<Fe>>, n_rounds_f: usize, n_rounds_p: usize, t: usize) -> (r: Vec<Fe>)
    requires
        i * t + state@.len() <= c@.len(),
        mat_fits(m@, state@.len()),
        n_rounds_f / 2 + n_rounds_p <= usize::MAX,
        state@.len() > 0,
    ensures
        vals(r@) == round_spec(vals(state@), vals(c@), mat_vals(m@), n_rounds_f as nat, n_rounds_p as nat, t as nat, i as nat),
        r@.len() == state@.len(),
{
    let clen = c.len();
    let mut s = state.clone();
    proof {
        assert(s@ =~= state@);
    }
    ark(&mut s, c, i * t);
    sbox(n_rounds_f, n_rounds_p, &mut s, i);
    mix(&s, m)
}

/// `k` rounds from round `i` on the state; the constants of round `i + j`
/// start at `(i + j) * t`.
pub fn poseidon_kround_poly(
    k: usize,
    state: &[Fe],
    i: usize,
    c: &Vec<Fe>,
    m: &Vec<Vec<Fe>>,
    n_rounds_f: usize,
    n_rounds_p: usize,
    t: usize,
) -> (r: Vec<Fe>)
    requires
        state@.len() > 0,
        k > 0 ==> (i + k - 1) * t + state@.len() <= c@.len(),
        i + k <= usize::MAX,
        mat_fits(m@, state@.len()),
        n_rounds_f / 2 + n_rounds_p <= usize::MAX,
    ensures
        vals(r@) == rounds_spec(vals(state@), vals(c@), mat_vals(m@), n_rounds_f as nat, n_rounds_p as nat, t as nat, i as nat, k as nat),
        r@.len() == state@.len(),
{
    let mut s = vstd::slice::slice_to_vec(state);
    let mut j: usize = 0;
    while j < k
        invariant
            state@.len() > 0,
            k > 0 ==> (i + k - 1) * t + state@.len() <= c@.len(),
            i + k <= usize::MAX,
            mat_fits(m@, state@.len()),
            n_rounds_f / 2 + n_rounds_p <= usize::MAX,
            j <= k,
            s@.len() == state@.len(),
            vals(s@) == rounds_spec(vals(state@), vals(c@), mat_vals(m@), n_rounds_f as nat, n_rounds_p as nat, t as nat, i as nat, j as nat),
        decreases k - j,
    {
        proof {
            assert((i + j) * t <= (i + k - 1) * t) by (nonlinear_arith)
                requires
                    j < k,
            ;
        }
        s = one_round(&s, i + j, c, m, n_rounds_f, n_rounds_p, t);
        j = j + 1;
    }
    s
}

/// The constants of width `t` fit `rounds` rounds.
pub open spec fn constants_fit(k: Constants, t: nat, rounds: nat) -> bool {
    &&& t >= 2
    &&& t - 2 < k.c@.len()
    &&& t - 2 < k.m@.len()
    &&& t - 2 < k.n_rounds_p@.len()
    &&& rounds * t <= k.c@[t - 2]@.len()
    &&& mat_fits(k.m@[t - 2]@, t)
    &&& k.n_rounds_f / 2 + k.n_rounds_p@[t - 2] <= usize::MAX
}

/// The hash of `inp`: the state `0, inp[0], ..., inp[n-1]` through all
/// rounds, first element.
pub open spec fn hash_spec(k: Constants, inp: Seq<nat>) -> nat {
    let t = inp.len() + 1;
    rounds_spec(
        seq![0nat] + inp,
        vals(k.c@[t - 2]@),
        mat_vals(k.m@[t - 2]@),
        k.n_rounds_f as nat,
        k.n_rounds_p@[t - 2] as nat,
        t,
        0,
        (k.n_rounds_f + k.n_rounds_p@[t - 2]) as nat,
    )[0]
}

impl Poseidon {
    /// The hash of a nonempty input no longer than the widths the constants
    /// cover.
    pub fn hash(&self, inp: Vec<Fe>) -> (r: Fe)
        requires
            inp@.len() > 0,
            inp@.len() < usize::MAX,
            inp@.len() <= self.constants.n_rounds_p@.len(),
            constants_fit(self.constants, (inp@.len() + 1) as nat, (self.constants.n_rounds_f + self.constants.n_rounds_p@[inp@.len() - 1]) as nat),
        ensures
            r.val() == hash_spec(self.constants, vals(inp@)),
    {
        let t = inp.len() + 1;
        let n_rounds_f = self.constants.n_rounds_f;
        let n_rounds_p = self.constants.n_rounds_p[t - 2];
        let mut state: Vec<Fe> = Vec::new();
        state.push(Fe::zero());
        let mut j: usize = 0;
        while j < inp.len()
            invariant
                j <= inp@.len(),
                state@.len() == j + 1,
                state@[0].val() == 0,
                forall|k: int| 0 <= k < j ==> #[trigger] state@[k + 1] == inp@[k],
            decreases inp@.len() - j,
        {
            state.push(inp[j]);
            j = j + 1;
        }
        proof {
            assert forall|k: int| 0 <= k < state@.len() implies #[trigger] vals(state@)[k] == (seq![0nat] + vals(inp@))[k] by {
                if k > 0 {
                    assert(state@[(k - 1) + 1] == inp@[k - 1]);
                }
            }
            assert(vals(state@) =~= seq![0nat] + vals(inp@));
        }
        let clen = self.constants.c[t - 2].len();
        proof {
            assert((n_rounds_f + n_rounds_p) * t <= clen);
            assert(n_rounds_f + n_rounds_p <= (n_rounds_f + n_rounds_p) * t) by (nonlinear_arith)
                requires
                    t >= 2,
            ;
        }
        let total = n_rounds_f + n_rounds_p;
        proof {
            if total > 0 {
                assert((0 + total - 1) * t + t == total * t) by (nonlinear_arith);
            }
        }
        let out = poseidon_kround_poly(total, state.as_slice(), 0, &self.constants.c[t - 2], &self.constants.m[t - 2], n_rounds_f, n_rounds_p, t);
        out[0]
    }
}

/// The value of a string of decimal digits.
pub open spec fn dec_val(s: Seq<char>) -> nat
    decreases s.len(),
{
    if s.len() == 0 {
        0
    } else {
        dec_val(s.drop_last()) * 10 + ((s.last() as nat) - ('0' as nat)) as nat
    }
}

/// A decimal numeral as `from_str_vartime` takes it: not empty, digits
/// only, and no leading zero but in `0` itself.
pub open spec fn is_decimal(s: Seq<char>) -> bool {
    &&& s.len() > 0
    &&& forall|i: int| 0 <= i < s.len() ==> '0' <= #[trigger] s[i] <= '9'
    &&& (s.len() == 1 || s[0] != '0')
}

/// `Fr::from_str_vartime`: ff parses a decimal numeral digit by digit in the
/// field, so the result is the numeral's value reduced; `None` on an empty
/// string, on a character that is no decimal digit, and on a leading zero.
#[verifier::external_body]
fn from_decimal(s: &str) -> (r: Option<Fe>)
    ensures
        r is Some <==> is_decimal(s@),
        r matches Some(x) ==> x.val() == fm(dec_val(s@) as int),
{
    match <halo2curves::bn256::Fr as ff::PrimeField>::from_str_vartime(s) {
        Some(x) => Fe::from_bytes(x.to_bytes()),
        None => None,
    }
}

/// Every string of the table is a decimal numeral.
pub open spec fn all_decimal(t: Seq<Vec<&str>>) -> bool {
    forall|i: int, j: int| 0 <= i < t.len() && 0 <= j < t[i]@.len() ==> is_decimal(#[trigger] t[i]@[j]@)
}

/// Parses a table of decimal numerals.
fn parse_table(t: &Vec<Vec<&str>>) -> (r: Vec<Vec<Fe>>)
    requires
        all_decimal(t@),
    ensures
        r@.len() == t@.len(),
        forall|i: int| 0 <= i < t@.len() ==> (#[trigger] r@[i])@.len() == t@[i]@.len(),
        forall|i: int, j: int|
            0 <= i < t@.len() && 0 <= j < t@[i]@.len() ==> (#[trigger] r@[i]@[j]).val() == fm(dec_val(t@[i]@[j]@) as int),
{
    let mut out: Vec<Vec<Fe>> = Vec::new();
    let mut i: usize = 0;
    while i < t.len()
        invariant
            all_decimal(t@),
            i <= t@.len(),
            out@.len() == i,
            forall|a: int| 0 <= a < i ==> (#[trigger] out@[a])@.len() == t@[a]@.len(),
            forall|a: int, j: int|
                0 <= a < i && 0 <= j < t@[a]@.len() ==> (#[trigger] out@[a]@[j]).val() == fm(dec_val(t@[a]@[j]@) as int),
        decreases t@.len() - i,
    {
        let row = &t[i];
        let mut r: Vec<Fe> = Vec::new();
        let mut j: usize = 0;
        while j < row.len()
            invariant
                all_decimal(t@),
                i < t@.len(),
                *row == t@[i as int],
                j <= row@.len(),
                r@.len() == j,
                forall|b: int| 0 <= b < j ==> (#[trigger] r@[b]).val() == fm(dec_val(row@[b]@) as int),
            decreases row@.len() - j,
        {
            proof {
                assert(is_decimal(t@[i as int]@[j as int]@));
            }
            let x = from_decimal(row[j]).unwrap();
            r.push(x);
            j = j + 1;
        }
        out.push(r);
        i = i + 1;
    }
    out
}

/// The Poseidon constants from their decimal numerals: the round constants
/// of each width, the mixing matrices of each width, 8 full rounds, and the
/// partial rounds of each width.
pub fn constants_from_decimal(c_str: &Vec<Vec<&str>>, m_str: &Vec<Vec<Vec<&str>>>) -> (r: Constants)
    requires
        all_decimal(c_str@),
        forall|i: int| 0 <= i < m_str@.len() ==> all_decimal(#[trigger] m_str@[i]@),
    ensures
        r.c@.len() == c_str@.len(),
        forall|i: int| 0 <= i < c_str@.len() ==> (#[trigger] r.c@[i])@.len() == c_str@[i]@.len(),
        forall|i: int, j: int|
            0 <= i < c_str@.len() && 0 <= j < c_str@[i]@.len() ==> (#[trigger] r.c@[i]@[j]).val() == fm(dec_val(c_str@[i]@[j]@) as int),
        r.m@.len() == m_str@.len(),
        forall|i: int| 0 <= i < m_str@.len() ==> (#[trigger] r.m@[i])@.len() == m_str@[i]@.len(),
        forall|i: int, j: int| 0 <= i < m_str@.len() && 0 <= j < m_str@[i]@.len() ==> (#[trigger] r.m@[i]@[j])@.len() == m_str@[i]@[j]@.len(),
        forall|i: int, j: int, k: int|
            0 <= i < m_str@.len() && 0 <= j < m_str@[i]@.len() && 0 <= k < m_str@[i]@[j]@.len() ==> (#[trigger] r.m@[i]@[j]@[k]).val() == fm(dec_val(m_str@[i]@[j]@[k]@) as int),
        r.n_rounds_f == 8,
        r.n_rounds_p@ == seq![56usize, 57, 56, 60, 60, 63, 64, 63, 60, 66, 60, 65, 70, 60, 64, 68],
{
    let c = parse_table(c_str);
    let mut m: Vec<Vec<Vec<Fe>>> = Vec::new();
    let mut i: usize = 0;
    while i < m_str.len()
        invariant
            forall|a: int| 0 <= a < m_str@.len() ==> all_decimal(#[trigger] m_str@[a]@),
            i <= m_str@.len(),
            m@.len() == i,
            forall|a: int| 0 <= a < i ==> (#[trigger] m@[a])@.len() == m_str@[a]@.len(),
            forall|a: int, j: int| 0 <= a < i && 0 <= j < m_str@[a]@.len() ==> (#[trigger] m@[a]@[j])@.len() == m_str@[a]@[j]@.len(),
            forall|a: int, j: int, k: int|
                0 <= a < i && 0 <= j < m_str@[a]@.len() && 0 <= k < m_str@[a]@[j]@.len() ==> (#[trigger] m@[a]@[j]@[k]).val() == fm(dec_val(m_str@[a]@[j]@[k]@) as int),
        decreases m_str@.len() - i,
    {
        proof {
            assert(all_decimal(m_str@[i as int]@));
        }
        let mi = parse_table(&m_str[i]);
        m.push(mi);
        i = i + 1;
    }
    let n_rounds_p = vec![56usize, 57, 56, 60, 60, 63, 64, 63, 60, 66, 60, 65, 70, 60, 64, 68];
    Constants { c, m, n_rounds_f: 8, n_rounds_p }
}

} // verus!
