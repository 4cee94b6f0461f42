//! The scalar field of BN254, the field all circuits of this crate live in.
//!
//! An element is kept as its canonical little-endian 32-byte encoding; the
//! arithmetic itself is done by `halo2curves::bn256::Fr`.

use vstd::prelude::*;
use halo2curves::bn256::Fr;
use ff::Field;
use ff::BatchInvert;
use vstd::std_specs::cmp::PartialEqSpecImpl;

verus! {

/// Little-endian value of a byte string.
pub open spec fn le_val(s: Seq<u8>) -> nat
    decreases s.len(),
{
    if s.len() == 0 {
        0
    } else {
        s[0] as nat + 256 * le_val(s.drop_first())
    }
}

/// The order of the BN254 scalar field.
pub open spec fn field_modulus() -> nat {
    21888242871839275222246405745257275088548364400416034343698204186575808495617nat
}

/// Field addition on canonical representatives.
pub open spec fn fadd(a: nat, b: nat) -> nat {
    (a + b) % field_modulus()
}

/// Field subtraction on canonical representatives.
pub open spec fn fsub(a: nat, b: nat) -> nat {
    ((a - b) % (field_modulus() as int)) as nat
}

/// Field multiplication on canonical representatives.
pub open spec fn fmul(a: nat, b: nat) -> nat {
    (a * b) % field_modulus()
}

/// Field negation on canonical representatives.
pub open spec fn fneg(a: nat) -> nat {
    ((0 - a) % (field_modulus() as int)) as nat
}

/// The residue of an integer.
pub open spec fn fm(x: int) -> nat {
    (x % (field_modulus() as int)) as nat
}

/// The residue of a sum is the field sum of the residues.
pub proof fn lemma_fadd_fm(a: int, b: int)
    ensures
        fadd(fm(a), fm(b)) == fm(a + b),
{
    let m = field_modulus() as int;
    vstd::arithmetic::div_mod::lemma_mod_bound(a, m);
    vstd::arithmetic::div_mod::lemma_mod_bound(b, m);
    vstd::arithmetic::div_mod::lemma_add_mod_noop(a, b, m);
}

/// The residue of a difference is the field difference of the residues.
pub proof fn lemma_fsub_fm(a: int, b: int)
    ensures
        fsub(fm(a), fm(b)) == fm(a - b),
{
    let m = field_modulus() as int;
    vstd::arithmetic::div_mod::lemma_mod_bound(a, m);
    vstd::arithmetic::div_mod::lemma_mod_bound(b, m);
    vstd::arithmetic::div_mod::lemma_sub_mod_noop(a, b, m);
}

/// The residue of a product is the field product of the residues.
pub proof fn lemma_fmul_fm(a: int, b: int)
    ensures
        fmul(fm(a), fm(b)) == fm(a * b),
{
    let m = field_modulus() as int;
    vstd::arithmetic::div_mod::lemma_mod_bound(a, m);
    vstd::arithmetic::div_mod::lemma_mod_bound(b, m);
    vstd::arithmetic::div_mod::lemma_mul_mod_noop_general(a, b, m);
}

/// The residue of a negation is the field negation of the residue.
pub proof fn lemma_fneg_fm(a: int)
    ensures
        fneg(fm(a)) == fm(-a),
{
    let m = field_modulus() as int;
    vstd::arithmetic::div_mod::lemma_mod_bound(a, m);
    vstd::arithmetic::div_mod::lemma_sub_mod_noop(0, a, m);
    vstd::arithmetic::div_mod::lemma_small_mod(0, m as nat);
}

/// A canonical value is its own residue.
pub proof fn lemma_fm_canonical(x: int)
    requires
        0 <= x < field_modulus(),
    ensures
        fm(x) == x,
{
    vstd::arithmetic::div_mod::lemma_small_mod(x as nat, field_modulus());
}

/// A field difference of canonical values is zero only when they are equal.
pub proof fn lemma_fsub_zero(a: nat, b: nat)
    requires
        a < field_modulus(),
        b < field_modulus(),
        fsub(a, b) == 0,
    ensures
        a == b,
{
    let m = field_modulus() as int;
    let d = a - b;
    if d > 0 {
        vstd::arithmetic::div_mod::lemma_small_mod(d as nat, m as nat);
    } else if d < 0 {
        vstd::arithmetic::div_mod::lemma_mod_add_multiples_vanish(d, m);
        vstd::arithmetic::div_mod::lemma_small_mod((m + d) as nat, m as nat);
    }
}

/// Field products are canonical.
pub proof fn lemma_fmul_lt(a: nat, b: nat)
    ensures
        fmul(a, b) < field_modulus(),
{
    vstd::arithmetic::div_mod::lemma_mod_bound((a * b) as int, field_modulus() as int);
}

/// The product of one canonical value is that value.
pub proof fn lemma_fprod_single(v: nat)
    requires
        v < field_modulus(),
    ensures
        fprod(seq![v]) == v,
{
    let s = seq![v];
    assert(s.drop_last() =~= Seq::<nat>::empty());
    assert(fprod(s.drop_last()) == 1);
    assert(s.last() == v);
    assert(fprod(s) == fmul(1, v));
    assert(1 * v == v);
    vstd::arithmetic::div_mod::lemma_small_mod(v, field_modulus());
}

/// A product that is not zero has no zero factor.
pub proof fn lemma_fprod_nonzero(s: Seq<nat>)
    requires
        fprod(s) != 0,
    ensures
        forall|i: int| 0 <= i < s.len() ==> #[trigger] s[i] != 0,
    decreases s.len(),
{
    if s.len() > 0 {
        let dl = s.drop_last();
        let p = fprod(dl);
        assert(fprod(s) == fmul(p, s.last()));
        if s.last() == 0 {
            assert(p * 0 == 0) by (nonlinear_arith);
        }
        if p == 0 {
            assert(0 * s.last() == 0) by (nonlinear_arith);
        }
        lemma_fprod_nonzero(dl);
        assert forall|i: int| 0 <= i < s.len() implies #[trigger] s[i] != 0 by {
            if i < s.len() - 1 {
                assert(s[i] == dl[i]);
            }
        }
    }
}

/// Residues are canonical.
pub proof fn lemma_fm_bound(x: int)
    ensures
        fm(x) < field_modulus(),
{
    vstd::arithmetic::div_mod::lemma_mod_bound(x, field_modulus() as int);
}

/// Field multiplication is commutative.
pub proof fn lemma_fmul_comm(a: nat, b: nat)
    ensures
        fmul(a, b) == fmul(b, a),
{
    assert(a * b == b * a) by (nonlinear_arith);
}

/// Field multiplication is associative on canonical values.
pub proof fn lemma_fmul_assoc(a: nat, b: nat, c: nat)
    requires
        a < field_modulus(),
        c < field_modulus(),
    ensures
        fmul(fmul(a, b), c) == fmul(a, fmul(b, c)),
{
    lemma_fm_canonical(a as int);
    lemma_fm_canonical(c as int);
    lemma_fmul_fm((a * b) as int, c as int);
    lemma_fmul_fm(a as int, (b * c) as int);
    assert(a * b * c == a * (b * c)) by (nonlinear_arith);
}

/// Dividing by an element and multiplying back gives the value again.
pub proof fn lemma_fmul_cancel(x: nat, m: nat, inv: nat)
    requires
        x < field_modulus(),
        m < field_modulus(),
        is_inverse(m, inv),
    ensures
        fmul(fmul(x, inv), m) == x,
{
    lemma_fmul_assoc(x, inv, m);
    lemma_fmul_comm(inv, m);
    vstd::arithmetic::div_mod::lemma_small_mod(x, field_modulus());
    assert(x * 1 == x);
    assert(fmul(x, 1) == x % field_modulus());
}

/// The field sum of a sequence, added from the first element on.
pub open spec fn fsum(s: Seq<nat>) -> nat
    decreases s.len(),
{
    if s.len() == 0 {
        0
    } else {
        fadd(fsum(s.drop_last()), s.last())
    }
}

/// The field product of a sequence, multiplied from the first element on.
pub open spec fn fprod(s: Seq<nat>) -> nat
    decreases s.len(),
{
    if s.len() == 0 {
        1
    } else {
        fmul(fprod(s.drop_last()), s.last())
    }
}

/// The inverse of a nonzero element; zero for zero.
pub open spec fn finv(a: nat) -> nat {
    if exists|b: nat| b < field_modulus() && #[trigger] is_inverse(a, b) {
        choose|b: nat| b < field_modulus() && #[trigger] is_inverse(a, b)
    } else {
        0
    }
}

/// A canonical inverse is the inverse.
pub proof fn lemma_finv_unique(a: nat, b: nat)
    requires
        a < field_modulus(),
        b < field_modulus(),
        is_inverse(a, b),
    ensures
        finv(a) == b,
{
    let c = finv(a);
    assert(c < field_modulus() && is_inverse(a, c));
    // b = b * (a * c) = (b * a) * c = c
    lemma_fmul_assoc(b, a, c);
    lemma_fmul_comm(b, a);
    vstd::arithmetic::div_mod::lemma_small_mod(b, field_modulus());
    vstd::arithmetic::div_mod::lemma_small_mod(c, field_modulus());
    assert(b * 1 == b);
    assert(1 * c == c);
    assert(fmul(b, 1) == b);
    assert(fmul(1, c) == c);
}

/// The product of a concatenation is the product of the products.
pub proof fn lemma_fprod_concat(a: Seq<nat>, b: Seq<nat>)
    requires
        forall|i: int| 0 <= i < b.len() ==> #[trigger] b[i] < field_modulus(),
    ensures
        fprod(a + b) == fmul(fprod(a), fprod(b)),
    decreases b.len(),
{
    lemma_fprod_lt(a);
    if b.len() == 0 {
        assert(a + b =~= a);
        vstd::arithmetic::div_mod::lemma_small_mod(fprod(a), field_modulus());
        assert(fprod(a) * 1 == fprod(a));
    } else {
        assert((a + b).drop_last() =~= a + b.drop_last());
        lemma_fprod_concat(a, b.drop_last());
        lemma_fmul_assoc(fprod(a), fprod(b.drop_last()), b.last());
    }
}

/// Products are canonical.
pub proof fn lemma_fprod_lt(a: Seq<nat>)
    ensures
        fprod(a) < field_modulus(),
    decreases a.len(),
{
    if a.len() > 0 {
        lemma_fprod_lt(a.drop_last());
    }
}

/// Values of elements are canonical.
pub proof fn lemma_vals_lt(s: Seq<Fe>)
    ensures
        forall|i: int| 0 <= i < s.len() ==> #[trigger] vals(s)[i] < field_modulus(),
{
    assert forall|i: int| 0 <= i < s.len() implies #[trigger] vals(s)[i] < field_modulus() by {
        s[i].lemma_val_lt();
    }
}

/// Values of a sequence of field elements.
pub open spec fn vals(s: Seq<Fe>) -> Seq<nat> {
    s.map_values(|x: Fe| x.val())
}

/// `a` and `b` are inverse to each other.
pub open spec fn is_inverse(a: nat, b: nat) -> bool {
    fmul(a, b) == 1
}

/// Equal byte strings of equal length have equal values, and conversely.
pub proof fn lemma_le_val_injective(s: Seq<u8>, t: Seq<u8>)
    requires
        s.len() == t.len(),
        le_val(s) == le_val(t),
    ensures
        s == t,
    decreases s.len(),
{
    if s.len() > 0 {
        let a = le_val(s.drop_first());
        let b = le_val(t.drop_first());
        assert(s[0] as int == t[0] as int && a == b) by (nonlinear_arith)
            requires
                s[0] as int + 256 * a == t[0] as int + 256 * b,
                0 <= s[0] < 256,
                0 <= t[0] < 256,
                a >= 0,
                b >= 0,
        ;
        lemma_le_val_injective(s.drop_first(), t.drop_first());
        assert(s =~= t) by {
            assert forall|i: int| 0 <= i < s.len() implies s[i] == t[i] by {
                if i > 0 {
                    assert(s[i] == s.drop_first()[i - 1]);
                    assert(t[i] == t.drop_first()[i - 1]);
                }
            }
        }
    } else {
        assert(s =~= t);
    }
}

/// A string of zero bytes has value zero.
proof fn lemma_le_val_zeros(s: Seq<u8>)
    requires
        forall|i: int| 0 <= i < s.len() ==> s[i] == 0,
    ensures
        le_val(s) == 0,
    decreases s.len(),
{
    if s.len() > 0 {
        lemma_le_val_zeros(s.drop_first());
    }
}

/// An element of the BN254 scalar field.
#[derive(Clone, Copy)]
pub struct Fe {
    bytes: [u8; 32],
}

impl Fe {
    /// The canonical representative in `0..field_modulus()`.
    pub closed spec fn val(self) -> nat {
        le_val(self.bytes@) % field_modulus()
    }

    #[verifier::type_invariant]
    spec fn canonical(self) -> bool {
        le_val(self.bytes@) < field_modulus()
    }

    /// The value of an element is always below the modulus.
    pub proof fn lemma_val_lt(self)
        ensures
            self.val() < field_modulus(),
    {
    }

    /// The additive identity.
    pub fn zero() -> (r: Fe)
        ensures
            r.val() == 0,
    {
        let b: [u8; 32] = [0u8, 0u8, 0u8, 0u8, 0u8, 0u8, 0u8, 0u8, 0u8, 0u8, 0u8, 0u8, 0u8, 0u8, 0u8, 0u8, 0u8, 0u8, 0u8, 0u8, 0u8, 0u8, 0u8, 0u8, 0u8, 0u8, 0u8, 0u8, 0u8, 0u8, 0u8, 0u8];
        proof {
            lemma_le_val_zeros(b@);
        }
        Fe { bytes: b }
    }

    /// The multiplicative identity.
    pub fn one() -> (r: Fe)
        ensures
            r.val() == 1,
    {
        let b: [u8; 32] = [1u8, 0u8, 0u8, 0u8, 0u8, 0u8, 0u8, 0u8, 0u8, 0u8, 0u8, 0u8, 0u8, 0u8, 0u8, 0u8, 0u8, 0u8, 0u8, 0u8, 0u8, 0u8, 0u8, 0u8, 0u8, 0u8, 0u8, 0u8, 0u8, 0u8, 0u8, 0u8];
        proof {
            lemma_le_val_zeros(b@.drop_first());
        }
        Fe { bytes: b }
    }

    /// The canonical encoding, little-endian.
    pub fn to_bytes(&self) -> (r: [u8; 32])
        ensures
            le_val(r@) == self.val(),
    {
        proof {
            use_type_invariant(self);
            vstd::arithmetic::div_mod::lemma_small_mod(le_val(self.bytes@), field_modulus());
        }
        self.bytes
    }

    /// Decodes a canonical little-endian encoding; `None` when the value is
    /// not below the modulus.
    pub fn from_bytes(b: [u8; 32]) -> (r: Option<Fe>)
        ensures
            le_val(b@) < field_modulus() <==> r is Some,
            r matches Some(x) ==> x.val() == le_val(b@),
    {
        let m = modulus_bytes();
        if lt_bytes(&b, &m) {
            proof {
                vstd::arithmetic::div_mod::lemma_small_mod(le_val(b@), field_modulus());
            }
            Some(Fe { bytes: b })
        } else {
            None
        }
    }

    /// `u64` as a field element, through `From<u64>`.
    #[verifier::external_body]
    pub fn from_u64(x: u64) -> (r: Fe)
        ensures
            r.val() == x as nat,
    {
        Fe { bytes: Fr::from(x).to_bytes() }
    }

    /// Field addition, through `Fr + Fr`.
    #[verifier::external_body]
    pub fn add(&self, b: &Fe) -> (r: Fe)
        ensures
            r.val() == fadd(self.val(), b.val()),
    {
        let x = Fr::from_bytes(&self.bytes).unwrap();
        Fe { bytes: (x + Fr::from_bytes(&b.bytes).unwrap()).to_bytes() }
    }

    /// Field subtraction, through `Fr - Fr`.
    #[verifier::external_body]
    pub fn sub(&self, b: &Fe) -> (r: Fe)
        ensures
            r.val() == fsub(self.val(), b.val()),
    {
        let x = Fr::from_bytes(&self.bytes).unwrap();
        Fe { bytes: (x - Fr::from_bytes(&b.bytes).unwrap()).to_bytes() }
    }

    /// Field multiplication, through `Fr * Fr`.
    #[verifier::external_body]
    pub fn mul(&self, b: &Fe) -> (r: Fe)
        ensures
            r.val() == fmul(self.val(), b.val()),
    {
        let x = Fr::from_bytes(&self.bytes).unwrap();
        Fe { bytes: (x * Fr::from_bytes(&b.bytes).unwrap()).to_bytes() }
    }

    /// Field negation, through `-Fr`.
    #[verifier::external_body]
    pub fn neg(&self) -> (r: Fe)
        ensures
            r.val() == fneg(self.val()),
    {
        Fe { bytes: (-Fr::from_bytes(&self.bytes).unwrap()).to_bytes() }
    }

    /// Multiplicative inverse, through `Field::invert`: `None` exactly for zero.
    #[verifier::external_body]
    pub fn invert(&self) -> (r: Option<Fe>)
        ensures
            self.val() == 0 <==> r is None,
            r matches Some(x) ==> is_inverse(self.val(), x.val()),
    {
        let x: Option<Fr> = Fr::from_bytes(&self.bytes).unwrap().invert().into();
        match x {
            Some(y) => Some(Fe { bytes: y.to_bytes() }),
            None => None,
        }
    }

    /// Inverts every nonzero element in place, through `BatchInvert::batch_invert`
    /// of `ff`; zeros stay zero. The inverse of the product that it returns is
    /// dropped.
    #[verifier::external_body]
    pub fn batch_invert(v: &mut Vec<Fe>)
        ensures
            final(v)@.len() == old(v)@.len(),
            forall|i: int| 0 <= i < old(v)@.len() && (#[trigger] old(v)@[i]).val() == 0 ==> final(v)@[i].val() == 0,
            forall|i: int| 0 <= i < old(v)@.len() && (#[trigger] old(v)@[i]).val() != 0 ==> is_inverse(old(v)@[i].val(), final(v)@[i].val()),
    {
        let mut xs: Vec<Fr> = v.iter().map(|x| Fr::from_bytes(&x.bytes).unwrap()).collect();
        let _ = xs.iter_mut().batch_invert();
        *v = xs.iter().map(|x| Fe { bytes: x.to_bytes() }).collect();
    }

    /// `2 * self`.
    pub fn double(&self) -> (r: Fe)
        ensures
            r.val() == fadd(self.val(), self.val()),
    {
        self.add(self)
    }

    /// `self * self`.
    pub fn square(&self) -> (r: Fe)
        ensures
            r.val() == fmul(self.val(), self.val()),
    {
        self.mul(self)
    }

    /// `self * self * self`.
    pub fn cube(&self) -> (r: Fe)
        ensures
            r.val() == fmul(fmul(self.val(), self.val()), self.val()),
    {
        self.square().mul(self)
    }

    /// Whether the element is zero.
    pub fn is_zero(&self) -> (r: bool)
        ensures
            r == (self.val() == 0),
    {
        *self == Fe::zero()
    }
}

impl PartialEq for Fe {
    fn eq(&self, other: &Self) -> (r: bool) {
        let mut i: usize = 0;
        while i < 32
            invariant
                i <= 32,
                forall|j: int| 0 <= j < i ==> self.bytes@[j] == other.bytes@[j],
            decreases 32 - i,
        {
            if self.bytes[i] != other.bytes[i] {
                proof {
                    use_type_invariant(self);
                    use_type_invariant(other);
                    vstd::arithmetic::div_mod::lemma_small_mod(le_val(self.bytes@), field_modulus());
                    vstd::arithmetic::div_mod::lemma_small_mod(le_val(other.bytes@), field_modulus());
                    if self.val() == other.val() {
                        lemma_le_val_injective(self.bytes@, other.bytes@);
                    }
                }
                return false;
            }
            i += 1;
        }
        assert(self.bytes@ =~= other.bytes@);
        true
    }
}

impl PartialEqSpecImpl for Fe {
    open spec fn obeys_eq_spec() -> bool {
        true
    }

    open spec fn eq_spec(&self, other: &Self) -> bool {
        self.val() == other.val()
    }
}

impl Eq for Fe {}

/// The modulus, little-endian.
fn modulus_bytes() -> (r: [u8; 32])
    ensures
        le_val(r@) == field_modulus(),
{
    let r: [u8; 32] = [
        1, 0, 0, 240, 147, 245, 225, 67, 145, 112, 185, 121, 72, 232, 51, 40, 93, 88, 129, 129,
        182, 69, 80, 184, 41, 160, 49, 225, 114, 78, 100, 48,
    ];
    assert(le_val(r@) == field_modulus()) by {
        reveal_with_fuel(le_val, 33);
    }
    r
}

/// Value of the high part `s[i..]` of a byte string.
spec fn le_val_from(s: Seq<u8>, i: int) -> nat {
    le_val(s.subrange(i, s.len() as int))
}

proof fn lemma_le_val_step(s: Seq<u8>, i: int)
    requires
        0 <= i < s.len(),
    ensures
        le_val_from(s, i) == s[i] as nat + 256 * le_val_from(s, i + 1),
{
    assert(s.subrange(i, s.len() as int).drop_first() =~= s.subrange(i + 1, s.len() as int));
}

/// Strict comparison of the values of two 32-byte strings.
fn lt_bytes(a: &[u8; 32], b: &[u8; 32]) -> (r: bool)
    ensures
        r == (le_val(a@) < le_val(b@)),
{
    // Compare from the most significant byte down.
    let mut i: usize = 32;
    proof {
        assert(a@.subrange(32, 32) =~= Seq::<u8>::empty());
        assert(b@.subrange(32, 32) =~= Seq::<u8>::empty());
        assert(a@.subrange(0, 32) =~= a@);
        assert(b@.subrange(0, 32) =~= b@);
    }
    while i > 0
        invariant
            i <= 32,
            le_val_from(a@, i as int) == le_val_from(b@, i as int),
        decreases i,
    {
        let k = i - 1;
        proof {
            lemma_le_val_step(a@, k as int);
            lemma_le_val_step(b@, k as int);
        }
        if a[k] != b[k] {
            proof {
                lemma_prefix_decides(a@, b@, k as int);
            }
            return a[k] < b[k];
        }
        i = k;
    }
    false
}

pub(crate) proof fn lemma_low_bound(s: Seq<u8>, i: int)
    requires
        0 <= i <= s.len(),
    ensures
        le_val(s.subrange(0, i)) < pow256(i),
    decreases i,
{
    if i > 0 {
        lemma_low_bound(s, i - 1);
        lemma_split(s.subrange(0, i), i - 1);
        assert(s.subrange(0, i).subrange(0, i - 1) =~= s.subrange(0, i - 1));
        assert(s.subrange(0, i).subrange(i - 1, i) =~= seq![s[i - 1]]);
        assert(le_val(seq![s[i - 1]]) == s[i - 1] as nat) by {
            assert(seq![s[i - 1]].drop_first() =~= Seq::<u8>::empty());
            reveal_with_fuel(le_val, 2);
        }
        let lo = le_val(s.subrange(0, i - 1));
        let p = pow256(i - 1);
        assert(lo + p * (s[i - 1] as nat) < pow256(i)) by (nonlinear_arith)
            requires
                lo < p,
                s[i - 1] <= 255,
                pow256(i) == 256 * p,
        ;
    }
}

pub(crate) open spec fn pow256(i: int) -> nat
    decreases i,
{
    if i <= 0 {
        1
    } else {
        256 * pow256(i - 1)
    }
}

/// `le_val(s) == le_val(s[..i]) + 256^i * le_val(s[i..])`.
pub(crate) proof fn lemma_split(s: Seq<u8>, i: int)
    requires
        0 <= i <= s.len(),
    ensures
        le_val(s) == le_val(s.subrange(0, i)) + pow256(i) * le_val(s.subrange(i, s.len() as int)),
    decreases i,
{
    if i == 0 {
        assert(s.subrange(0, 0) =~= Seq::<u8>::empty());
        assert(s.subrange(0, s.len() as int) =~= s);
        assert(le_val(s.subrange(0, 0)) == 0);
        assert(pow256(0) == 1);
    } else {
        let t = s.drop_first();
        lemma_split(t, i - 1);
        assert(t.subrange(0, i - 1) =~= s.subrange(0, i).drop_first());
        assert(t.subrange(i - 1, t.len() as int) =~= s.subrange(i, s.len() as int));
        let a = le_val(t.subrange(0, i - 1));
        let h = le_val(s.subrange(i, s.len() as int));
        let p = pow256(i - 1);
        assert(s.subrange(0, i)[0] == s[0]);
        assert(le_val(s.subrange(0, i)) == s[0] as nat + 256 * a);
        assert(le_val(s) == s[0] as nat + 256 * le_val(t));
        assert(pow256(i) == 256 * p);
        assert(s[0] as nat + 256 * (a + p * h) == (s[0] as nat + 256 * a) + (256 * p) * h)
            by (nonlinear_arith);
    }
}

/// Where two strings first differ from the top, that byte decides the order.
proof fn lemma_prefix_decides(a: Seq<u8>, b: Seq<u8>, k: int)
    requires
        a.len() == b.len(),
        0 <= k < a.len(),
        a[k] != b[k],
        le_val_from(a, k + 1) == le_val_from(b, k + 1),
    ensures
        (le_val(a) < le_val(b)) == (a[k] < b[k]),
{
    lemma_split(a, k);
    lemma_split(b, k);
    lemma_le_val_step(a, k);
    lemma_le_val_step(b, k);
    lemma_low_bound(a, k);
    lemma_low_bound(b, k);
    let la = le_val(a.subrange(0, k));
    let lb = le_val(b.subrange(0, k));
    let h = le_val_from(a, k + 1);
    let p = pow256(k);
    let x = a[k] as int;
    let y = b[k] as int;
    assert((la + p * (x + 256 * h) < lb + p * (y + 256 * h)) == (x < y)) by (nonlinear_arith)
        requires
            0 <= la < p,
            0 <= lb < p,
            x != y,
            h >= 0,
    ;
}

} // verus!
