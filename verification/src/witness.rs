//! Witnesses: the values of the variables of a run, and the relaxed
//! Protostar witness with its module operations and error term.

use vstd::prelude::*;
use crate::field::{Fe, fadd, fmul, fneg, vals};
use crate::field_utils::fpow;
use crate::gate::Gate;
use crate::constraint_system::{
    Constraint, ConstraintGroup, ExternalValue, ProtoGalaxyConstraintSystem, Variable, Visibility,
    WitnessSpec, flatten_groups, rhs_count,
};

verus! {

/// The values of the variables of a round, `None` until assigned.
#[derive(Clone)]
pub struct RoundWtns {
    pub pubs: Vec<Option<Fe>>,
    pub privs: Vec<Option<Fe>>,
}

/// Witness data: values of variables, external values and internal values.
#[derive(Clone)]
pub struct CSWtns {
    pub wtns: Vec<RoundWtns>,
    pub ext_vals: Vec<Option<Fe>>,
    pub int_vals: Vec<Option<Fe>>,
}

/// A vector of `n` empty slots.
fn nones(n: usize) -> (r: Vec<Option<Fe>>)
    ensures
        r@.len() == n,
        forall|i: int| 0 <= i < n ==> (#[trigger] r@[i]) is None,
{
    let mut v: Vec<Option<Fe>> = Vec::new();
    let mut k: usize = 0;
    while k < n
        invariant
            k <= n,
            v@.len() == k,
            forall|i: int| 0 <= i < k ==> (#[trigger] v@[i]) is None,
        decreases n - k,
    {
        v.push(None);
        k = k + 1;
    }
    v
}

impl CSWtns {
    /// The slot of a variable, where it exists.
    pub open spec fn slot(&self, var: Variable) -> Option<Option<Fe>> {
        if var.round < self.wtns@.len() {
            match var.visibility {
                Visibility::Public => if var.index < self.wtns@[var.round as int].pubs@.len() {
                    Some(self.wtns@[var.round as int].pubs@[var.index as int])
                } else {
                    None
                },
                Visibility::Private => if var.index < self.wtns@[var.round as int].privs@.len() {
                    Some(self.wtns@[var.round as int].privs@[var.index as int])
                } else {
                    None
                },
            }
        } else {
            None
        }
    }

    /// The variable exists and holds a value.
    pub open spec fn is_set(&self, var: Variable) -> bool {
        match self.slot(var) {
            Some(Some(_)) => true,
            _ => false,
        }
    }

    /// Same shape, and every other variable keeps its slot.
    pub open spec fn same_except(&self, other: &Self, var: Variable) -> bool {
        &&& self.wtns@.len() == other.wtns@.len()
        &&& forall|r: int|
            0 <= r < self.wtns@.len() ==> (#[trigger] self.wtns@[r]).pubs@.len() == other.wtns@[r].pubs@.len()
                && self.wtns@[r].privs@.len() == other.wtns@[r].privs@.len()
        &&& forall|v: Variable| v != var ==> #[trigger] self.slot(v) == other.slot(v)
        &&& self.ext_vals@ == other.ext_vals@
        &&& self.int_vals@ == other.int_vals@
    }

    /// An empty witness of the shape of the constraint system.
    pub fn new<G: Gate>(cs: &ProtoGalaxyConstraintSystem<G>) -> (r: Self)
        ensures
            r.wtns@.len() == cs.wspec().round_specs@.len(),
            forall|i: int|
                0 <= i < r.wtns@.len() ==> (#[trigger] r.wtns@[i]).pubs@.len() == cs.wspec().round_specs@[i].pubs
                    && r.wtns@[i].privs@.len() == cs.wspec().round_specs@[i].privs,
            forall|v: Variable| !(#[trigger] r.is_set(v)),
            r.ext_vals@.len() == cs.wspec().num_exts,
            forall|i: int| 0 <= i < r.ext_vals@.len() ==> (#[trigger] r.ext_vals@[i]) is None,
            r.int_vals@.len() == cs.wspec().num_ints,
    {
        let spec = cs.witness_spec();
        let mut wtns: Vec<RoundWtns> = Vec::new();
        let mut i: usize = 0;
        while i < spec.round_specs.len()
            invariant
                *spec == cs.wspec(),
                i <= spec.round_specs@.len(),
                wtns@.len() == i,
                forall|k: int|
                    0 <= k < i ==> (#[trigger] wtns@[k]).pubs@.len() == spec.round_specs@[k].pubs
                        && wtns@[k].privs@.len() == spec.round_specs@[k].privs
                        && (forall|j: int| 0 <= j < wtns@[k].pubs@.len() ==> (#[trigger] wtns@[k].pubs@[j]) is None)
                        && (forall|j: int| 0 <= j < wtns@[k].privs@.len() ==> (#[trigger] wtns@[k].privs@[j]) is None),
            decreases spec.round_specs@.len() - i,
        {
            let rs = spec.round_specs[i];
            wtns.push(RoundWtns { pubs: nones(rs.pubs), privs: nones(rs.privs) });
            i = i + 1;
        }
        let r = Self { wtns, ext_vals: nones(spec.num_exts), int_vals: nones(spec.num_ints) };
        proof {
            assert forall|v: Variable| !(#[trigger] r.is_set(v)) by {
                if v.round < r.wtns@.len() {
                    let _ = r.wtns@[v.round as int];
                }
            }
        }
        r
    }

    /// Assigns a variable; it must exist and be unassigned: a second
    /// assignment is an error, which `requires` excludes.
    pub fn setvar(&mut self, var: Variable, value: Fe)
        requires
            old(self).slot(var) == Some(None::<Fe>),
        ensures
            final(self).slot(var) == Some(Some(value)),
            final(self).same_except(old(self), var),
    {
        let r = var.round;
        let i = var.index;
        let mut round = self.wtns.remove(r);
        match var.visibility {
            Visibility::Public => {
                round.pubs.set(i, Some(value));
            },
            Visibility::Private => {
                round.privs.set(i, Some(value));
            },
        }
        self.wtns.insert(r, round);
        proof {
            assert(self.wtns@ =~= old(self).wtns@.update(r as int, round));
            assert forall|v: Variable| v != var implies #[trigger] self.slot(v) == old(self).slot(v) by {
                if v.round == r && v.visibility == var.visibility {
                    assert(v.index != i);
                }
            }
        }
    }

    /// The value of an assigned variable.
    pub fn getvar(&self, var: Variable) -> (r: Fe)
        requires
            self.is_set(var),
        ensures
            self.slot(var) == Some(Some(r)),
    {
        let w = match var.visibility {
            Visibility::Public => self.wtns[var.round].pubs[var.index],
            Visibility::Private => self.wtns[var.round].privs[var.index],
        };
        w.unwrap()
    }

    /// The values of assigned variables.
    pub fn get_vars(&self, vars: &[Variable]) -> (r: Vec<Fe>)
        requires
            forall|k: int| 0 <= k < vars@.len() ==> #[trigger] self.is_set(vars@[k]),
        ensures
            r@.len() == vars@.len(),
            forall|k: int| 0 <= k < vars@.len() ==> self.slot(vars@[k]) == Some(Some(#[trigger] r@[k])),
    {
        let mut out: Vec<Fe> = Vec::new();
        let mut k: usize = 0;
        while k < vars.len()
            invariant
                k <= vars@.len(),
                forall|j: int| 0 <= j < vars@.len() ==> #[trigger] self.is_set(vars@[j]),
                out@.len() == k,
                forall|j: int| 0 <= j < k ==> self.slot(vars@[j]) == Some(Some(#[trigger] out@[j])),
            decreases vars@.len() - k,
        {
            let x = self.getvar(vars[k]);
            out.push(x);
            k = k + 1;
        }
        out
    }

    /// Assigns the variables in order; each must exist and be unassigned,
    /// and no variable may come twice.
    pub fn set_vars(&mut self, assignments: &[(Variable, Fe)])
        requires
            forall|k: int| 0 <= k < assignments@.len() ==> old(self).slot((#[trigger] assignments@[k]).0) == Some(None::<Fe>),
            forall|j: int, k: int| 0 <= j < k < assignments@.len() ==> assignments@[j].0 != assignments@[k].0,
        ensures
            forall|k: int| 0 <= k < assignments@.len() ==> final(self).slot((#[trigger] assignments@[k]).0) == Some(Some(assignments@[k].1)),
            forall|v: Variable| (forall|k: int| 0 <= k < assignments@.len() ==> (#[trigger] assignments@[k]).0 != v)
                ==> #[trigger] final(self).slot(v) == old(self).slot(v),
            final(self).ext_vals@ == old(self).ext_vals@,
            final(self).int_vals@ == old(self).int_vals@,
            final(self).wtns@.len() == old(self).wtns@.len(),
    {
        let mut k: usize = 0;
        while k < assignments.len()
            invariant
                k <= assignments@.len(),
                forall|j: int| 0 <= j < k ==> self.slot((#[trigger] assignments@[j]).0) == Some(Some(assignments@[j].1)),
                forall|j: int| k <= j < assignments@.len() ==> self.slot((#[trigger] assignments@[j]).0) == Some(None::<Fe>),
                forall|j: int, l: int| 0 <= j < l < assignments@.len() ==> assignments@[j].0 != assignments@[l].0,
                forall|v: Variable| (forall|j: int| 0 <= j < k ==> (#[trigger] assignments@[j]).0 != v)
                    ==> #[trigger] self.slot(v) == old(self).slot(v),
                self.ext_vals@ == old(self).ext_vals@,
                self.int_vals@ == old(self).int_vals@,
                self.wtns@.len() == old(self).wtns@.len(),
            decreases assignments@.len() - k,
        {
            let (var, value) = assignments[k];
            let ghost before = *self;
            self.setvar(var, value);
            proof {
                assert forall|j: int| 0 <= j < k + 1 implies self.slot((#[trigger] assignments@[j]).0) == Some(Some(assignments@[j].1)) by {
                    if j < k {
                        assert(assignments@[j].0 != var);
                    }
                }
                assert forall|j: int| k + 1 <= j < assignments@.len() implies self.slot((#[trigger] assignments@[j]).0) == Some(None::<Fe>) by {
                    assert(assignments@[j].0 != var);
                }
                assert forall|v: Variable| (forall|j: int| 0 <= j < k + 1 ==> (#[trigger] assignments@[j]).0 != v)
                    implies #[trigger] self.slot(v) == old(self).slot(v) by {
                    assert(assignments@[k as int].0 != v);
                    assert forall|j: int| 0 <= j < k implies (#[trigger] assignments@[j]).0 != v by {
                        assert(0 <= j < k + 1);
                    }
                }
            }
            k = k + 1;
        }
    }

    /// The value of an assigned external value.
    pub fn getext(&self, ext: ExternalValue) -> (r: Fe)
        requires
            ext.addr < self.ext_vals@.len(),
            self.ext_vals@[ext.addr as int] is Some,
        ensures
            self.ext_vals@[ext.addr as int] == Some(r),
    {
        self.ext_vals[ext.addr].unwrap()
    }

    /// Assigns an external value; it must exist and be unassigned.
    pub fn setext(&mut self, ext: ExternalValue, value: Fe)
        requires
            ext.addr < old(self).ext_vals@.len(),
            old(self).ext_vals@[ext.addr as int] is None,
        ensures
            final(self).ext_vals@ == old(self).ext_vals@.update(ext.addr as int, Some(value)),
            final(self).wtns@ == old(self).wtns@,
            final(self).int_vals@ == old(self).int_vals@,
    {
        self.ext_vals.set(ext.addr, Some(value));
    }
}

/// A value written to a variable is what is read back, and other variables
/// keep theirs.
pub proof fn law_setvar_getvar(before: CSWtns, after: CSWtns, var: Variable, other: Variable, value: Fe)
    requires
        after.slot(var) == Some(Some(value)),
        after.same_except(&before, var),
        other != var,
    ensures
        after.slot(var) == Some(Some(value)),
        after.slot(other) == before.slot(other),
{
}

/// Module operations: addition, negation, scaling.
pub trait Module<F>: Sized {
    /// `self` and `other` can be added: their shapes agree.
    spec fn compatible(&self, other: &Self) -> bool;

    fn add_assign(&mut self, other: Self)
        requires
            old(self).compatible(&other),
    ;

    fn neg(&mut self);

    fn scale(&mut self, scale: F);
}

/// Pointwise sum of two sequences of the same length.
pub open spec fn add_seq(a: Seq<Fe>, b: Seq<Fe>) -> Seq<nat> {
    Seq::new(a.len(), |i: int| fadd(a[i].val(), b[i].val()))
}

/// Pointwise negation.
pub open spec fn neg_seq(a: Seq<Fe>) -> Seq<nat> {
    Seq::new(a.len(), |i: int| fneg(a[i].val()))
}

/// Pointwise multiplication by `s`.
pub open spec fn scale_seq(a: Seq<Fe>, s: nat) -> Seq<nat> {
    Seq::new(a.len(), |i: int| fmul(a[i].val(), s))
}

/// Rows of equal lengths.
pub open spec fn same_shape(a: Seq<Vec<Fe>>, b: Seq<Vec<Fe>>) -> bool {
    &&& a.len() == b.len()
    &&& forall|i: int| 0 <= i < a.len() ==> (#[trigger] a[i])@.len() == b[i]@.len()
}

fn add_vec(a: &Vec<Fe>, b: &Vec<Fe>) -> (r: Vec<Fe>)
    requires
        a@.len() == b@.len(),
    ensures
        vals(r@) == add_seq(a@, b@),
{
    let mut out: Vec<Fe> = Vec::new();
    let mut k: usize = 0;
    while k < a.len()
        invariant
            k <= a@.len(),
            a@.len() == b@.len(),
            out@.len() == k,
            forall|j: int| 0 <= j < k ==> (#[trigger] out@[j]).val() == fadd(a@[j].val(), b@[j].val()),
        decreases a@.len() - k,
    {
        out.push(a[k].add(&b[k]));
        k = k + 1;
    }
    proof {
        assert(vals(out@) =~= add_seq(a@, b@));
    }
    out
}

fn neg_vec(a: &Vec<Fe>) -> (r: Vec<Fe>)
    ensures
        vals(r@) == neg_seq(a@),
{
    let mut out: Vec<Fe> = Vec::new();
    let mut k: usize = 0;
    while k < a.len()
        invariant
            k <= a@.len(),
            out@.len() == k,
            forall|j: int| 0 <= j < k ==> (#[trigger] out@[j]).val() == fneg(a@[j].val()),
        decreases a@.len() - k,
    {
        out.push(a[k].neg());
        k = k + 1;
    }
    proof {
        assert(vals(out@) =~= neg_seq(a@));
    }
    out
}

fn scale_vec(a: &Vec<Fe>, s: &Fe) -> (r: Vec<Fe>)
    ensures
        vals(r@) == scale_seq(a@, s.val()),
{
    let mut out: Vec<Fe> = Vec::new();
    let mut k: usize = 0;
    while k < a.len()
        invariant
            k <= a@.len(),
            out@.len() == k,
            forall|j: int| 0 <= j < k ==> (#[trigger] out@[j]).val() == fmul(a@[j].val(), s.val()),
        decreases a@.len() - k,
    {
        out.push(a[k].mul(s));
        k = k + 1;
    }
    proof {
        assert(vals(out@) =~= scale_seq(a@, s.val()));
    }
    out
}

fn add_rows(a: &Vec<Vec<Fe>>, b: &Vec<Vec<Fe>>) -> (r: Vec<Vec<Fe>>)
    requires
        same_shape(a@, b@),
    ensures
        r@.len() == a@.len(),
        forall|i: int| 0 <= i < a@.len() ==> vals((#[trigger] r@[i])@) == add_seq(a@[i]@, b@[i]@),
{
    let mut out: Vec<Vec<Fe>> = Vec::new();
    let mut k: usize = 0;
    while k < a.len()
        invariant
            k <= a@.len(),
            same_shape(a@, b@),
            out@.len() == k,
            forall|i: int| 0 <= i < k ==> vals((#[trigger] out@[i])@) == add_seq(a@[i]@, b@[i]@),
        decreases a@.len() - k,
    {
        out.push(add_vec(&a[k], &b[k]));
        k = k + 1;
    }
    out
}

fn neg_rows(a: &Vec<Vec<Fe>>) -> (r: Vec<Vec<Fe>>)
    ensures
        r@.len() == a@.len(),
        forall|i: int| 0 <= i < a@.len() ==> vals((#[trigger] r@[i])@) == neg_seq(a@[i]@),
{
    let mut out: Vec<Vec<Fe>> = Vec::new();
    let mut k: usize = 0;
    while k < a.len()
        invariant
            k <= a@.len(),
            out@.len() == k,
            forall|i: int| 0 <= i < k ==> vals((#[trigger] out@[i])@) == neg_seq(a@[i]@),
        decreases a@.len() - k,
    {
        out.push(neg_vec(&a[k]));
        k = k + 1;
    }
    out
}

fn scale_rows(a: &Vec<Vec<Fe>>, s: &Fe) -> (r: Vec<Vec<Fe>>)
    ensures
        r@.len() == a@.len(),
        forall|i: int| 0 <= i < a@.len() ==> vals((#[trigger] r@[i])@) == scale_seq(a@[i]@, s.val()),
{
    let mut out: Vec<Vec<Fe>> = Vec::new();
    let mut k: usize = 0;
    while k < a.len()
        invariant
            k <= a@.len(),
            out@.len() == k,
            forall|i: int| 0 <= i < k ==> vals((#[trigger] out@[i])@) == scale_seq(a@[i]@, s.val()),
        decreases a@.len() - k,
    {
        out.push(scale_vec(&a[k], s));
        k = k + 1;
    }
    out
}

/// The left-hand side of a relaxed Protostar witness: round witnesses,
/// public values and challenges.
#[derive(Clone)]
pub struct ProtostarLhsWtns {
    pub round_wtns: Vec<Vec<Fe>>,
    pub pubs: Vec<Vec<Fe>>,
    pub protostar_challenges: Vec<Fe>,
}

impl Module<Fe> for ProtostarLhsWtns {
    open spec fn compatible(&self, other: &Self) -> bool {
        &&& same_shape(self.round_wtns@, other.round_wtns@)
        &&& same_shape(self.pubs@, other.pubs@)
        &&& self.protostar_challenges@.len() == other.protostar_challenges@.len()
    }

    /// Pointwise addition.
    fn add_assign(&mut self, other: Self)
        ensures
            final(self).round_wtns@.len() == old(self).round_wtns@.len(),
            forall|i: int| 0 <= i < old(self).round_wtns@.len() ==> vals((#[trigger] final(self).round_wtns@[i])@)
                == add_seq(old(self).round_wtns@[i]@, other.round_wtns@[i]@),
            final(self).pubs@.len() == old(self).pubs@.len(),
            forall|i: int| 0 <= i < old(self).pubs@.len() ==> vals((#[trigger] final(self).pubs@[i])@) == add_seq(
                old(self).pubs@[i]@,
                other.pubs@[i]@,
            ),
            vals(final(self).protostar_challenges@) == add_seq(old(self).protostar_challenges@, other.protostar_challenges@),
    {
        self.round_wtns = add_rows(&self.round_wtns, &other.round_wtns);
        self.pubs = add_rows(&self.pubs, &other.pubs);
        self.protostar_challenges = add_vec(&self.protostar_challenges, &other.protostar_challenges);
    }

    /// Pointwise negation.
    fn neg(&mut self)
        ensures
            final(self).round_wtns@.len() == old(self).round_wtns@.len(),
            forall|i: int| 0 <= i < old(self).round_wtns@.len() ==> vals((#[trigger] final(self).round_wtns@[i])@)
                == neg_seq(old(self).round_wtns@[i]@),
            final(self).pubs@.len() == old(self).pubs@.len(),
            forall|i: int| 0 <= i < old(self).pubs@.len() ==> vals((#[trigger] final(self).pubs@[i])@) == neg_seq(
                old(self).pubs@[i]@,
            ),
            vals(final(self).protostar_challenges@) == neg_seq(old(self).protostar_challenges@),
    {
        self.round_wtns = neg_rows(&self.round_wtns);
        self.pubs = neg_rows(&self.pubs);
        self.protostar_challenges = neg_vec(&self.protostar_challenges);
    }

    /// Pointwise multiplication by `scale`.
    fn scale(&mut self, scale: Fe)
        ensures
            final(self).round_wtns@.len() == old(self).round_wtns@.len(),
            forall|i: int| 0 <= i < old(self).round_wtns@.len() ==> vals((#[trigger] final(self).round_wtns@[i])@)
                == scale_seq(old(self).round_wtns@[i]@, scale.val()),
            final(self).pubs@.len() == old(self).pubs@.len(),
            forall|i: int| 0 <= i < old(self).pubs@.len() ==> vals((#[trigger] final(self).pubs@[i])@) == scale_seq(
                old(self).pubs@[i]@,
                scale.val(),
            ),
            vals(final(self).protostar_challenges@) == scale_seq(old(self).protostar_challenges@, scale.val()),
    {
        self.round_wtns = scale_rows(&self.round_wtns, &scale);
        self.pubs = scale_rows(&self.pubs, &scale);
        self.protostar_challenges = scale_vec(&self.protostar_challenges, &scale);
    }
}

/// A relaxed Protostar witness: the left-hand side and the error.
#[derive(Clone)]
pub struct ProtostarWtns {
    pub lhs: ProtostarLhsWtns,
    pub error: Fe,
}

impl Module<Fe> for ProtostarWtns {
    open spec fn compatible(&self, other: &Self) -> bool {
        self.lhs.compatible(&other.lhs)
    }

    /// Pointwise addition, errors added.
    fn add_assign(&mut self, other: Self)
        ensures
            final(self).error.val() == fadd(old(self).error.val(), other.error.val()),
            final(self).lhs.round_wtns@.len() == old(self).lhs.round_wtns@.len(),
            forall|i: int| 0 <= i < old(self).lhs.round_wtns@.len() ==> vals((#[trigger] final(self).lhs.round_wtns@[i])@)
                == add_seq(old(self).lhs.round_wtns@[i]@, other.lhs.round_wtns@[i]@),
            final(self).lhs.pubs@.len() == old(self).lhs.pubs@.len(),
            forall|i: int| 0 <= i < old(self).lhs.pubs@.len() ==> vals((#[trigger] final(self).lhs.pubs@[i])@) == add_seq(
                old(self).lhs.pubs@[i]@,
                other.lhs.pubs@[i]@,
            ),
            vals(final(self).lhs.protostar_challenges@) == add_seq(
                old(self).lhs.protostar_challenges@,
                other.lhs.protostar_challenges@,
            ),
    {
        self.error = self.error.add(&other.error);
        self.lhs.add_assign(other.lhs);
    }

    /// Pointwise negation, error negated.
    fn neg(&mut self)
        ensures
            final(self).error.val() == fneg(old(self).error.val()),
            final(self).lhs.round_wtns@.len() == old(self).lhs.round_wtns@.len(),
            forall|i: int| 0 <= i < old(self).lhs.round_wtns@.len() ==> vals((#[trigger] final(self).lhs.round_wtns@[i])@)
                == neg_seq(old(self).lhs.round_wtns@[i]@),
            final(self).lhs.pubs@.len() == old(self).lhs.pubs@.len(),
            forall|i: int| 0 <= i < old(self).lhs.pubs@.len() ==> vals((#[trigger] final(self).lhs.pubs@[i])@) == neg_seq(
                old(self).lhs.pubs@[i]@,
            ),
            vals(final(self).lhs.protostar_challenges@) == neg_seq(old(self).lhs.protostar_challenges@),
    {
        self.error = self.error.neg();
        self.lhs.neg();
    }

    /// Pointwise multiplication, error scaled.
    fn scale(&mut self, scale: Fe)
        ensures
            final(self).error.val() == fmul(old(self).error.val(), scale.val()),
            final(self).lhs.round_wtns@.len() == old(self).lhs.round_wtns@.len(),
            forall|i: int| 0 <= i < old(self).lhs.round_wtns@.len() ==> vals((#[trigger] final(self).lhs.round_wtns@[i])@)
                == scale_seq(old(self).lhs.round_wtns@[i]@, scale.val()),
            final(self).lhs.pubs@.len() == old(self).lhs.pubs@.len(),
            forall|i: int| 0 <= i < old(self).lhs.pubs@.len() ==> vals((#[trigger] final(self).lhs.pubs@[i])@) == scale_seq(
                old(self).lhs.pubs@[i]@,
                scale.val(),
            ),
            vals(final(self).lhs.protostar_challenges@) == scale_seq(old(self).lhs.protostar_challenges@, scale.val()),
    {
        self.error = self.error.mul(&scale);
        self.lhs.scale(scale);
    }
}

/// Negating and adding back gives zero everywhere.
pub proof fn law_add_neg_is_zero(a: Seq<Fe>)
    ensures
        forall|i: int| 0 <= i < a.len() ==> fadd(a[i].val(), neg_seq(a)[i]) == 0,
{
    assert forall|i: int| 0 <= i < a.len() implies fadd(a[i].val(), neg_seq(a)[i]) == 0 by {
        let x = a[i].val() as int;
        let m = crate::field::field_modulus() as int;
        crate::field::lemma_fneg_fm(x);
        crate::field::lemma_fadd_fm(x, -x);
        if x < m {
            crate::field::lemma_fm_canonical(x);
        }
        crate::field::lemma_fm_canonical(0);
        a[i].lemma_val_lt();
    }
}

/// A variable can be read from the witness: its round and index are in range.
pub open spec fn lhs_readable(w: ProtostarLhsWtns, v: Variable) -> bool {
    match v.visibility {
        Visibility::Public => v.round < w.pubs@.len() && v.index < w.pubs@[v.round as int]@.len(),
        Visibility::Private => v.round < w.round_wtns@.len() && v.index < w.round_wtns@[v.round as int]@.len(),
    }
}

/// The value of a variable in the witness: public ones from `pubs`, private
/// ones from `round_wtns`.
pub open spec fn lhs_value(w: ProtostarLhsWtns, v: Variable) -> Fe {
    match v.visibility {
        Visibility::Public => w.pubs@[v.round as int]@[v.index as int],
        Visibility::Private => w.round_wtns@[v.round as int]@[v.index as int],
    }
}

/// The values of a list of variables.
pub open spec fn read_vars(w: ProtostarLhsWtns, vars: Seq<Variable>) -> Seq<Fe> {
    Seq::new(vars.len(), |i: int| lhs_value(w, vars[i]))
}

/// The outputs of the gates of `cs`, in order, on the values the witness gives
/// their inputs.
pub open spec fn gate_outputs<G: Gate>(cs: Seq<Constraint<G>>, w: ProtostarLhsWtns) -> Seq<nat>
    decreases cs.len(),
{
    if cs.len() == 0 {
        Seq::empty()
    } else {
        gate_outputs(cs.drop_last(), w) + cs.last().gate.spec_exec(read_vars(w, cs.last().inputs@))
    }
}

/// Every gate gives as many outputs as it declares on the values the witness
/// gives its inputs.
pub open spec fn full_outputs<G: Gate>(cs: Seq<Constraint<G>>, w: ProtostarLhsWtns) -> bool {
    forall|i: int| 0 <= i < cs.len() ==> (#[trigger] cs[i]).gate.spec_exec(read_vars(w, cs[i].inputs@)).len()
        == cs[i].gate.spec_o()
}

/// All the outputs of the gates are collected: as many as the gates declare
/// in all.
pub proof fn law_gate_outputs_len<G: Gate>(cs: Seq<Constraint<G>>, w: ProtostarLhsWtns)
    requires
        full_outputs(cs, w),
    ensures
        gate_outputs(cs, w).len() == rhs_count(cs),
    decreases cs.len(),
{
    if cs.len() > 0 {
        let dl = cs.drop_last();
        assert forall|i: int| 0 <= i < dl.len() implies (#[trigger] dl[i]).gate.spec_exec(read_vars(w, dl[i].inputs@)).len()
            == dl[i].gate.spec_o() by {
            assert(dl[i] == cs[i]);
        }
        law_gate_outputs_len(dl, w);
        assert(cs.last() == cs[cs.len() - 1]);
    }
}

/// Output `j` of gate `k` is collected at position `j` after the outputs of
/// the gates before it.
pub proof fn law_gate_outputs_place<G: Gate>(cs: Seq<Constraint<G>>, w: ProtostarLhsWtns, k: int, j: int)
    requires
        full_outputs(cs, w),
        0 <= k < cs.len(),
        0 <= j < cs[k].gate.spec_o(),
    ensures
        rhs_count(cs.take(k)) + j < gate_outputs(cs, w).len(),
        gate_outputs(cs, w)[rhs_count(cs.take(k)) + j] == cs[k].gate.spec_exec(read_vars(w, cs[k].inputs@))[j],
    decreases cs.len(),
{
    let dl = cs.drop_last();
    assert forall|i: int| 0 <= i < dl.len() implies (#[trigger] dl[i]).gate.spec_exec(read_vars(w, dl[i].inputs@)).len()
        == dl[i].gate.spec_o() by {
        assert(dl[i] == cs[i]);
    }
    law_gate_outputs_len(cs, w);
    law_gate_outputs_len(dl, w);
    if k == cs.len() - 1 {
        assert(cs.take(k) =~= dl);
        assert(cs[k] == cs.last());
    } else {
        law_gate_outputs_place(dl, w, k, j);
        assert(dl.take(k) =~= cs.take(k));
        assert(dl[k] == cs[k]);
    }
}

/// `2^n`.
pub open spec fn pow2(n: nat) -> nat
    decreases n,
{
    if n == 0 {
        1
    } else {
        2 * pow2((n - 1) as nat)
    }
}

/// One halving step: with `mid = 2^(j-1)`, entry `i < mid` takes on
/// `r[i] + r[i + mid] * beta` where `i + mid` is in range; other entries stay.
pub open spec fn fold_step(r: Seq<nat>, beta: nat, mid: nat) -> Seq<nat> {
    Seq::new(r.len(), |i: int| if i < mid && i + mid < r.len() { fadd(r[i], fmul(r[i + mid], beta)) } else { r[i] })
}

/// The error term of the values `r` under the challenges `betas`: the last
/// challenge folds the upper half into the lower, and so on down to entry 0.
pub open spec fn error_fold(r: Seq<nat>, betas: Seq<nat>) -> nat
    decreases betas.len(),
{
    if betas.len() == 0 {
        if r.len() > 0 { r[0] } else { 0 }
    } else {
        error_fold(fold_step(r, betas.last(), pow2((betas.len() - 1) as nat)), betas.drop_last())
    }
}

/// The weight of entry `i` of values folded with `betas`: the product of
/// `betas[k]` over the bits `k` set in `i`, for `i < 2^betas.len()`; zero
/// past that.
pub open spec fn beta_weight(i: nat, betas: Seq<nat>) -> int
    decreases betas.len(),
{
    if betas.len() == 0 {
        if i == 0 { 1 } else { 0 }
    } else {
        let h = pow2((betas.len() - 1) as nat);
        if i < h {
            beta_weight(i, betas.drop_last())
        } else if i < 2 * h {
            betas.last() * beta_weight((i - h) as nat, betas.drop_last())
        } else {
            0
        }
    }
}

/// `sum_{i < n} f(i)`.
pub open spec fn sum_to(f: spec_fn(int) -> int, n: nat) -> int
    decreases n,
{
    if n == 0 {
        0
    } else {
        sum_to(f, (n - 1) as nat) + f(n - 1)
    }
}

pub proof fn lemma_sum_ext(f: spec_fn(int) -> int, g: spec_fn(int) -> int, n: nat)
    requires
        forall|i: int| 0 <= i < n ==> #[trigger] f(i) == g(i),
    ensures
        sum_to(f, n) == sum_to(g, n),
    decreases n,
{
    if n > 0 {
        lemma_sum_ext(f, g, (n - 1) as nat);
    }
}

proof fn lemma_sum_add(f: spec_fn(int) -> int, g: spec_fn(int) -> int, n: nat)
    ensures
        sum_to(f, n) + sum_to(g, n) == sum_to(|i: int| f(i) + g(i), n),
    decreases n,
{
    if n > 0 {
        lemma_sum_add(f, g, (n - 1) as nat);
    }
}

proof fn lemma_sum_shift(f: spec_fn(int) -> int, a: nat, k: nat)
    ensures
        sum_to(f, a + k) == sum_to(f, a) + sum_to(|i: int| f(i + a), k),
    decreases k,
{
    if k > 0 {
        lemma_sum_shift(f, a, (k - 1) as nat);
        assert((a + k - 1) as nat == (a + (k - 1)) as nat);
    }
}

proof fn lemma_sum_zero(f: spec_fn(int) -> int, n: nat)
    requires
        forall|i: int| 0 <= i < n ==> #[trigger] f(i) == 0,
    ensures
        sum_to(f, n) == 0,
    decreases n,
{
    if n > 0 {
        lemma_sum_zero(f, (n - 1) as nat);
    }
}

/// Sums whose terms agree modulo the field's modulus agree modulo it.
pub proof fn lemma_sum_fm(f: spec_fn(int) -> int, g: spec_fn(int) -> int, n: nat)
    requires
        forall|i: int| 0 <= i < n ==> crate::field::fm(#[trigger] f(i)) == crate::field::fm(g(i)),
    ensures
        crate::field::fm(sum_to(f, n)) == crate::field::fm(sum_to(g, n)),
    decreases n,
{
    if n > 0 {
        let m = (n - 1) as nat;
        lemma_sum_fm(f, g, m);
        let p = crate::field::field_modulus() as int;
        vstd::arithmetic::div_mod::lemma_add_mod_noop(sum_to(f, m), f(m as int), p);
        vstd::arithmetic::div_mod::lemma_add_mod_noop(sum_to(g, m), g(m as int), p);
    }
}

/// The weight is zero past `2^betas.len()`.
proof fn lemma_weight_past(i: nat, betas: Seq<nat>)
    requires
        i >= pow2(betas.len()),
    ensures
        beta_weight(i, betas) == 0,
{
    if betas.len() > 0 {
        assert(pow2(betas.len()) == 2 * pow2((betas.len() - 1) as nat));
    }
}

/// A residue times a weight agrees with the value times the weight.
proof fn lemma_fm_times(x: int, w: int)
    ensures
        crate::field::fm(crate::field::fm(x) * w) == crate::field::fm(x * w),
{
    vstd::arithmetic::div_mod::lemma_mul_mod_noop_left(x, w, crate::field::field_modulus() as int);
}

/// Folding the values `r` with the challenges `betas` gives, in the field,
/// `sum_i r[i] * w_i`, `w_i` the product of `betas[k]` over the bits `k` set
/// in `i` (entries past `2^betas.len()` weigh nothing).
pub proof fn law_error_fold(r: Seq<nat>, betas: Seq<nat>)
    requires
        forall|i: int| 0 <= i < r.len() ==> #[trigger] r[i] < crate::field::field_modulus(),
        forall|k: int| 0 <= k < betas.len() ==> #[trigger] betas[k] < crate::field::field_modulus(),
    ensures
        error_fold(r, betas) == crate::field::fm(sum_to(|i: int| r[i] * beta_weight(i as nat, betas), r.len())),
    decreases betas.len(),
{
    let len = r.len();
    let rw = |i: int| r[i] * beta_weight(i as nat, betas);
    if betas.len() == 0 {
        if len == 0 {
            crate::field::lemma_fm_canonical(0);
        } else {
            lemma_sum_shift(rw, 1, (len - 1) as nat);
            assert forall|i: int| 0 <= i < len - 1 implies #[trigger] rw(i + 1) == 0 by {
                assert(beta_weight((i + 1) as nat, betas) == 0);
                assert(r[i + 1] * 0 == 0) by (nonlinear_arith);
            }
            lemma_sum_zero(|i: int| rw(i + 1), (len - 1) as nat);
            assert(beta_weight(0, betas) == 1);
            assert(rw(0) == r[0] * 1);
            assert(sum_to(rw, 0) == 0);
            assert(sum_to(rw, 1) == r[0] * 1);
            crate::field::lemma_fm_canonical(r[0] as int);
        }
    } else {
        let dl = betas.drop_last();
        let b = betas.last();
        let h = pow2((betas.len() - 1) as nat);
        let f = fold_step(r, b, h);
        assert forall|i: int| 0 <= i < f.len() implies #[trigger] f[i] < crate::field::field_modulus() by {
            if i < h && i + h < len {
                crate::field::lemma_fm_bound((r[i] + fmul(r[i + h], b)) as int);
            }
        }
        assert forall|k: int| 0 <= k < dl.len() implies #[trigger] dl[k] < crate::field::field_modulus() by {
            assert(dl[k] == betas[k]);
        }
        law_error_fold(f, dl);
        let fw = |i: int| f[i] * beta_weight(i as nat, dl);
        let aa = |i: int| if i < h { r[i] * beta_weight(i as nat, dl) } else { 0 };
        let bf = |i: int| if i < h && i + h < len { r[i + h] * b * beta_weight(i as nat, dl) } else { 0 };
        let cc = |i: int| if h <= i < 2 * h { r[i] * b * beta_weight((i - h) as nat, dl) } else { 0 };
        // the folded values, term by term
        assert forall|i: int| 0 <= i < len implies crate::field::fm(#[trigger] fw(i)) == crate::field::fm(aa(i) + bf(i)) by {
            let w = beta_weight(i as nat, dl);
            if i < h && i + h < len {
                let x: int = (r[i] + r[i + h] * b) as int;
                crate::field::lemma_fm_canonical(r[i] as int);
                crate::field::lemma_fm_canonical(r[i + h] as int);
                crate::field::lemma_fm_canonical(b as int);
                crate::field::lemma_fmul_fm(r[i + h] as int, b as int);
                crate::field::lemma_fadd_fm(r[i] as int, (r[i + h] * b) as int);
                assert(f[i] == crate::field::fm(x));
                lemma_fm_times(x, w);
                assert(x * w == r[i] * w + r[i + h] * b * w) by (nonlinear_arith)
                    requires
                        x == r[i] + r[i + h] * b,
                ;
            } else if i >= h {
                lemma_weight_past(i as nat, dl);
                assert(f[i] * 0 == 0) by (nonlinear_arith);
            }
        }
        lemma_sum_fm(fw, |i: int| aa(i) + bf(i), len);
        lemma_sum_add(aa, bf, len);
        // the weights of the values before folding
        assert forall|i: int| 0 <= i < len implies #[trigger] rw(i) == aa(i) + cc(i) by {
            if i < h {
            } else if i < 2 * h {
                let w = beta_weight((i - h) as nat, dl);
                assert(r[i] * (b * w) == r[i] * b * w) by (nonlinear_arith);
            } else {
                assert(r[i] * 0 == 0) by (nonlinear_arith);
            }
        }
        lemma_sum_ext(rw, |i: int| aa(i) + cc(i), len);
        lemma_sum_add(aa, cc, len);
        // the upper half moves down
        if len <= h {
            lemma_sum_zero(cc, len);
            lemma_sum_zero(bf, len);
        } else {
            let k = (len - h) as nat;
            lemma_sum_shift(cc, h, k);
            lemma_sum_zero(cc, h);
            assert(h + k == len);
            lemma_sum_shift(bf, k, h);
            assert(k + h == len);
            lemma_sum_zero(|i: int| bf(i + k), h);
            lemma_sum_ext(|i: int| cc(i + h), bf, k);
        }
    }
}

/// Reads a variable from the witness.
fn read_var(w: &ProtostarLhsWtns, v: Variable) -> (r: Fe)
    requires
        lhs_readable(*w, v),
    ensures
        r == lhs_value(*w, v),
{
    match v.visibility {
        Visibility::Public => w.pubs[v.round][v.index],
        Visibility::Private => w.round_wtns[v.round][v.index],
    }
}

/// The error term of a witness: the outputs of the nonlinear constraints,
/// folded with the challenges. There must be challenges, and
/// `2^(b-1) < outputs <= 2^b` for `b` challenges.
pub fn compute_error_term<G: Gate>(wtns: &ProtostarLhsWtns, cs: &ProtoGalaxyConstraintSystem<G>) -> (r: Fe)
    requires
        forall|k: int| 0 <= k < cs.nonlinear().len() ==> (#[trigger] cs.nonlinear()[k]).inputs@.len() == cs.nonlinear()[k].gate.spec_i(),
        forall|k: int, j: int| 0 <= k < cs.nonlinear().len() && 0 <= j < cs.nonlinear()[k].inputs@.len()
            ==> lhs_readable(*wtns, #[trigger] cs.nonlinear()[k].inputs@[j]),
        wtns.protostar_challenges@.len() > 0,
        pow2((wtns.protostar_challenges@.len() - 1) as nat) < gate_outputs(cs.nonlinear(), *wtns).len(),
        gate_outputs(cs.nonlinear(), *wtns).len() <= pow2(wtns.protostar_challenges@.len()),
    ensures
        r.val() == error_fold(gate_outputs(cs.nonlinear(), *wtns), vals(wtns.protostar_challenges@)),
        full_outputs(cs.nonlinear(), *wtns),
        gate_outputs(cs.nonlinear(), *wtns).len() == rhs_count(cs.nonlinear()),
        r.val() == crate::field::fm(
            sum_to(
                |i: int| gate_outputs(cs.nonlinear(), *wtns)[i] * beta_weight(i as nat, vals(wtns.protostar_challenges@)),
                gate_outputs(cs.nonlinear(), *wtns).len(),
            ),
        ),
{
    let betas = &wtns.protostar_challenges;
    let constrs = cs.iter_non_linear_constraints();
    let ghost nl = cs.nonlinear();
    let mut results: Vec<Fe> = Vec::new();
    let mut k: usize = 0;
    while k < constrs.len()
        invariant
            k <= constrs@.len(),
            constrs@.len() == nl.len(),
            forall|j: int| 0 <= j < constrs@.len() ==> *(#[trigger] constrs@[j]) == nl[j],
            forall|j: int| 0 <= j < nl.len() ==> (#[trigger] nl[j]).inputs@.len() == nl[j].gate.spec_i(),
            forall|j: int, i: int| 0 <= j < nl.len() && 0 <= i < nl[j].inputs@.len() ==> lhs_readable(*wtns, #[trigger] nl[j].inputs@[i]),
            vals(results@) == gate_outputs(nl.take(k as int), *wtns),
            forall|j: int| 0 <= j < k ==> (#[trigger] nl[j]).gate.spec_exec(read_vars(*wtns, nl[j].inputs@)).len()
                == nl[j].gate.spec_o(),
        decreases constrs@.len() - k,
    {
        let c = constrs[k];
        let mut input_values: Vec<Fe> = Vec::new();
        let mut i: usize = 0;
        while i < c.inputs.len()
            invariant
                *c == nl[k as int],
                0 <= k < nl.len(),
                i <= c.inputs@.len(),
                forall|j: int| 0 <= j < c.inputs@.len() ==> lhs_readable(*wtns, #[trigger] c.inputs@[j]),
                input_values@ == read_vars(*wtns, c.inputs@).take(i as int),
            decreases c.inputs@.len() - i,
        {
            let x = read_var(wtns, c.inputs[i]);
            input_values.push(x);
            proof {
                assert(read_vars(*wtns, c.inputs@).take(i + 1) =~= read_vars(*wtns, c.inputs@).take(i as int).push(x));
            }
            i = i + 1;
        }
        proof {
            assert(read_vars(*wtns, c.inputs@).take(i as int) =~= read_vars(*wtns, c.inputs@));
        }
        let out = c.gate.exec(&input_values);
        let ghost before = results@;
        let mut j: usize = 0;
        while j < out.len()
            invariant
                j <= out@.len(),
                results@ == before + out@.take(j as int),
            decreases out@.len() - j,
        {
            results.push(out[j]);
            proof {
                assert(before + out@.take(j + 1) =~= (before + out@.take(j as int)).push(out@[j as int]));
            }
            j = j + 1;
        }
        proof {
            assert(out@.take(j as int) =~= out@);
            assert(nl.take(k + 1).drop_last() =~= nl.take(k as int));
            assert(vals(results@) =~= vals(before) + vals(out@));
        }
        k = k + 1;
    }
    proof {
        assert(nl.take(k as int) =~= nl);
        law_gate_outputs_len(nl, *wtns);
    }
    let ghost r0 = vals(results@);
    proof {
        crate::field::lemma_vals_lt(results@);
        crate::field::lemma_vals_lt(wtns.protostar_challenges@);
        law_error_fold(r0, vals(wtns.protostar_challenges@));
    }
    let ghost bv = vals(betas@);
    let b = betas.len();
    let len = results.len();
    // mid = 2^(b - 1)
    let mut mid: usize = 1;
    let mut e: usize = 1;
    while e < b
        invariant
            1 <= e <= b,
            mid == pow2((e - 1) as nat),
            pow2((b - 1) as nat) < len,
        decreases b - e,
    {
        proof {
            lemma_pow2_mono((e) as nat, (b - 1) as nat);
            assert(pow2(e as nat) == 2 * pow2((e - 1) as nat));
        }
        mid = mid * 2;
        e = e + 1;
    }
    proof {
        assert(bv.take(b as int) =~= bv);
    }
    let mut jb: usize = b;
    while jb > 0
        invariant
            jb <= b,
            b == bv.len(),
            bv == vals(betas@),
            len == results@.len(),
            jb > 0 ==> mid == pow2((jb - 1) as nat),
            jb > 0 ==> mid < len,
            error_fold(vals(results@), bv.take(jb as int)) == error_fold(r0, bv),
        decreases jb,
    {
        let beta = betas[jb - 1];
        let ghost cur = vals(results@);
        let ghost target = fold_step(cur, bv[jb - 1], mid as nat);
        let mut i: usize = 0;
        while i < mid && i < len - mid
            invariant
                i <= mid,
                mid < len,
                len == results@.len(),
                cur.len() == len,
                target == fold_step(cur, beta.val(), mid as nat),
                forall|t: int| 0 <= t < i ==> (#[trigger] results@[t]).val() == target[t],
                forall|t: int| i <= t < len ==> (#[trigger] results@[t]).val() == cur[t],
            decreases mid - i,
        {
            let v = results[i].add(&results[mid + i].mul(&beta));
            results.set(i, v);
            i = i + 1;
        }
        proof {
            assert(vals(results@) =~= target);
            assert(bv.take(jb as int).last() == bv[jb - 1]);
            assert(bv.take(jb as int).drop_last() =~= bv.take(jb - 1));
            if jb > 1 {
                lemma_pow2_mono((jb - 2) as nat, (jb - 1) as nat);
            }
        }
        mid = mid / 2;
        jb = jb - 1;
    }
    proof {
        assert(bv.take(b as int) =~= bv);
    }
    results[0]
}

proof fn lemma_pow2_mono(a: nat, b: nat)
    requires
        a <= b,
    ensures
        pow2(a) <= pow2(b),
        pow2(a) >= 1,
        a < b ==> 2 * pow2(a) <= pow2(b),
    decreases b - a,
{
    reveal_with_fuel(pow2, 2);
    if a < b {
        lemma_pow2_mono(a, (b - 1) as nat);
    } else {
        lemma_pow2_pos(a);
    }
}

proof fn lemma_pow2_pos(a: nat)
    ensures
        pow2(a) >= 1,
    decreases a,
{
    if a > 0 {
        lemma_pow2_pos((a - 1) as nat);
    }
}

} // verus!
