//! The constraint system: variables allocated per round and visibility, and
//! constraints grouped by the degree of their gate.

use vstd::prelude::*;
use crate::gate::Gate;

verus! {

/// Constraint commitment kind.
#[derive(Debug, Clone, Copy, PartialEq, Eq, Structural)]
pub enum CommitKind {
    Trivial,
    Group,
    /// Used in cases where we do not need to commit.
    Zero,
}

/// Variable descriptor. We treat challenges as public variables.
#[derive(Debug, Clone, Copy, PartialEq, Eq, Structural)]
pub enum Visibility {
    Public,
    Private,
}

/// A variable inside a constraint system: constraints operate on variables.
#[derive(Debug, Clone, Copy, PartialEq, Eq, Structural)]
pub struct Variable {
    pub visibility: Visibility,
    pub round: usize,
    pub index: usize,
}

/// An external value: a public input or an auxiliary value of the advice,
/// shared between runs and circuits.
#[derive(Debug, Clone, Copy, PartialEq, Eq, Structural)]
pub struct ExternalValue {
    pub addr: usize,
}

/// A polynomial constraint: a gate and the variables it attaches to.
#[derive(Debug, Clone)]
pub struct Constraint<G> {
    pub inputs: Vec<Variable>,
    pub gate: G,
}

/// Constraints of one kind, with the total number of values their gates output.
#[derive(Debug, Clone)]
pub struct ConstraintGroup<G> {
    pub entries: Vec<Constraint<G>>,
    pub num_rhs: usize,
}

/// A copy of a list of variables.
pub fn copy_vars(v: &[Variable]) -> (r: Vec<Variable>)
    ensures
        r@ == v@,
{
    let mut out: Vec<Variable> = Vec::new();
    let mut k: usize = 0;
    while k < v.len()
        invariant
            k <= v@.len(),
            out@ == v@.take(k as int),
        decreases v@.len() - k,
    {
        out.push(v[k]);
        k = k + 1;
        proof {
            assert(out@ =~= v@.take(k as int));
        }
    }
    proof {
        assert(v@.take(v@.len() as int) =~= v@);
    }
    out
}

/// Sum of the output sizes of the gates of `cs`.
pub open spec fn rhs_count<G: Gate>(cs: Seq<Constraint<G>>) -> nat
    decreases cs.len(),
{
    if cs.len() == 0 {
        0
    } else {
        rhs_count(cs.drop_last()) + cs.last().gate.spec_o()
    }
}

impl<G: Gate> ConstraintGroup<G> {
    /// `num_rhs` counts the outputs of the entries.
    pub open spec fn wf(&self) -> bool {
        self.num_rhs == rhs_count(self.entries@)
    }

    pub fn new() -> (r: Self)
        ensures
            r.entries@ == Seq::<Constraint<G>>::empty(),
            r.num_rhs == 0,
            r.wf(),
    {
        Self { entries: Vec::new(), num_rhs: 0 }
    }

    /// Adds a constraint; its gate takes exactly the inputs listed.
    pub fn constrain(&mut self, inputs: &[Variable], gate: G)
        requires
            gate.spec_i() == inputs@.len(),
            old(self).num_rhs + gate.spec_o() <= usize::MAX,
        ensures
            final(self).num_rhs == old(self).num_rhs + gate.spec_o(),
            final(self).entries@ == old(self).entries@.push(Constraint { inputs: final(self).entries@.last().inputs, gate }),
            final(self).entries@.last().inputs@ == inputs@,
            old(self).wf() ==> final(self).wf(),
    {
        let o = gate.o();
        self.num_rhs = self.num_rhs + o;
        let c = Constraint { inputs: copy_vars(inputs), gate };
        self.entries.push(c);
        proof {
            assert(self.entries@.drop_last() =~= old(self).entries@);
        }
    }
}

/// Round witness shape: the amount of public and private variables.
#[derive(Debug, Default, Clone, Copy, PartialEq, Eq, Structural)]
pub struct RoundWitnessSpec {
    pub pubs: usize,
    pub privs: usize,
}

/// Witness shape: a specification for each round, and the numbers of
/// internal and external values.
#[derive(Debug, Clone)]
pub struct WitnessSpec {
    pub round_specs: Vec<RoundWitnessSpec>,
    pub num_ints: usize,
    pub num_exts: usize,
}

/// Sizes of the constraint system.
#[derive(Debug, Clone, Copy)]
pub struct ConstrSpec {
    pub num_lin_constraints: usize,
    pub num_nonlinear_constraints: usize,
    pub max_degree: usize,
}

/// The constraint system for ProtoGalaxy: linear constraints in one group,
/// nonlinear ones grouped by degree, in increasing order of degree.
#[derive(Debug, Clone)]
pub struct ProtoGalaxyConstraintSystem<G> {
    pub spec: WitnessSpec,
    pub max_degree: usize,
    linear_constraints: ConstraintGroup<G>,
    non_linear_degrees: Vec<usize>,
    non_linear_constraints: Vec<ConstraintGroup<G>>,
}

/// The concatenation of the entries of the groups.
pub open spec fn flatten_groups<G>(groups: Seq<ConstraintGroup<G>>) -> Seq<Constraint<G>>
    decreases groups.len(),
{
    if groups.len() == 0 {
        Seq::empty()
    } else {
        flatten_groups(groups.drop_last()) + groups.last().entries@
    }
}

/// Sum of the `num_rhs` of the groups.
pub open spec fn groups_rhs<G>(groups: Seq<ConstraintGroup<G>>) -> nat
    decreases groups.len(),
{
    if groups.len() == 0 {
        0
    } else {
        groups_rhs(groups.drop_last()) + groups.last().num_rhs as nat
    }
}

/// The variables `prev..prev + size` of a round and visibility.
pub open spec fn var_range(visibility: Visibility, round: usize, prev: nat, size: nat) -> Seq<Variable> {
    Seq::new(size, |k: int| Variable { visibility, round, index: (prev + k) as usize })
}

/// Every constraint of `small` is among `big`.
pub open spec fn keeps<G>(big: Seq<Constraint<G>>, small: Seq<Constraint<G>>) -> bool {
    forall|k: int| 0 <= k < small.len() ==> #[trigger] big.contains(small[k])
}

/// Every constraint of `big` is among `small`, or is a gate `g` on `inputs`.
pub open spec fn only_adds<G>(big: Seq<Constraint<G>>, small: Seq<Constraint<G>>, g: G, inputs: Seq<Variable>) -> bool {
    forall|k: int| 0 <= k < big.len() ==> small.contains(#[trigger] big[k]) || (big[k].gate == g && big[k].inputs@ == inputs)
}

/// A gate `g` on `inputs` is among the constraints.
pub open spec fn has_constraint<G>(cs: Seq<Constraint<G>>, g: G, inputs: Seq<Variable>) -> bool {
    exists|k: int| 0 <= k < cs.len() && (#[trigger] cs[k]).gate == g && cs[k].inputs@ == inputs
}

/// The constraints after adding `g` on `inputs` to `before`: the ones before,
/// one more, and no other.
pub open spec fn added_one<G>(after: Seq<Constraint<G>>, before: Seq<Constraint<G>>, g: G, inputs: Seq<Variable>) -> bool {
    &&& after.len() == before.len() + 1
    &&& keeps(after, before)
    &&& only_adds(after, before, g, inputs)
    &&& has_constraint(after, g, inputs)
}

impl<G: Gate> ProtoGalaxyConstraintSystem<G> {
    /// The largest degree of a constraint.
    pub fn max_degree(&self) -> (r: usize)
        ensures
            r == self.max_deg(),
    {
        self.max_degree
    }

    /// The witness shape.
    pub closed spec fn wspec(&self) -> WitnessSpec {
        self.spec
    }

    /// The maximal degree of a constraint added so far.
    pub closed spec fn max_deg(&self) -> nat {
        self.max_degree as nat
    }

    /// The linear constraints.
    pub closed spec fn linear(&self) -> ConstraintGroup<G> {
        self.linear_constraints
    }

    /// The degrees of the nonlinear groups, increasing.
    pub closed spec fn degrees(&self) -> Seq<usize> {
        self.non_linear_degrees@
    }

    /// The nonlinear groups, by increasing degree.
    pub closed spec fn groups(&self) -> Seq<ConstraintGroup<G>> {
        self.non_linear_constraints@
    }

    /// The nonlinear constraints in iteration order.
    pub open spec fn nonlinear(&self) -> Seq<Constraint<G>> {
        flatten_groups(self.groups())
    }

    /// All constraints in iteration order: linear, then nonlinear.
    pub open spec fn all_constraints(&self) -> Seq<Constraint<G>> {
        self.linear().entries@ + self.nonlinear()
    }

    /// The grouping is consistent.
    pub open spec fn wf(&self) -> bool {
        &&& self.degrees().len() == self.groups().len()
        &&& forall|i: int, j: int| 0 <= i < j < self.degrees().len() ==> self.degrees()[i] < self.degrees()[j]
        &&& forall|i: int| 0 <= i < self.degrees().len() ==> self.degrees()[i] >= 2
        &&& self.linear().wf()
        &&& forall|i: int| 0 <= i < self.groups().len() ==> (#[trigger] self.groups()[i]).wf()
        &&& forall|c: Constraint<G>| #[trigger] self.linear().entries@.contains(c) ==> c.gate.spec_d() == 1 && c.inputs@.len() == c.gate.spec_i()
        &&& forall|i: int, k: int|
            0 <= i < self.groups().len() && 0 <= k < self.groups()[i].entries@.len() ==> (
            #[trigger] self.groups()[i].entries@[k]).gate.spec_d() == self.degrees()[i]
            && self.groups()[i].entries@[k].inputs@.len() == self.groups()[i].entries@[k].gate.spec_i()
    }

    /// A system with `num_rounds` empty rounds.
    pub fn new(num_rounds: usize) -> (r: Self)
        ensures
            r.wspec().round_specs@.len() == num_rounds,
            forall|i: int| 0 <= i < num_rounds ==> #[trigger] r.wspec().round_specs@[i] == (RoundWitnessSpec { pubs: 0, privs: 0 }),
            r.wspec().num_exts == 0,
            r.wspec().num_ints == 0,
            r.max_deg() == 0,
            r.all_constraints() == Seq::<Constraint<G>>::empty(),
            r.wf(),
            r.linear().num_rhs == 0,
            groups_rhs(r.groups()) == 0,
    {
        let mut round_specs: Vec<RoundWitnessSpec> = Vec::new();
        let mut i: usize = 0;
        while i < num_rounds
            invariant
                i <= num_rounds,
                round_specs@.len() == i,
                forall|k: int| 0 <= k < i ==> #[trigger] round_specs@[k] == (RoundWitnessSpec { pubs: 0, privs: 0 }),
            decreases num_rounds - i,
        {
            round_specs.push(RoundWitnessSpec { pubs: 0, privs: 0 });
            i = i + 1;
        }
        let r = Self {
            spec: WitnessSpec { round_specs, num_exts: 0, num_ints: 0 },
            max_degree: 0,
            linear_constraints: ConstraintGroup::new(),
            non_linear_degrees: Vec::new(),
            non_linear_constraints: Vec::new(),
        };
        proof {
            assert(r.all_constraints() =~= Seq::<Constraint<G>>::empty());
        }
        r
    }

    pub fn num_rounds(&self) -> (r: usize)
        ensures
            r == self.wspec().round_specs@.len(),
    {
        self.spec.round_specs.len()
    }

    /// Index of the last round; there must be one.
    pub fn last_round(&self) -> (r: usize)
        requires
            self.wspec().round_specs@.len() > 0,
        ensures
            r == self.wspec().round_specs@.len() - 1,
    {
        self.num_rounds() - 1
    }

    /// Adds an empty round.
    pub fn new_round(&mut self)
        ensures
            final(self).wspec().round_specs@ == old(self).wspec().round_specs@.push(RoundWitnessSpec { pubs: 0, privs: 0 }),
            final(self).wspec().num_exts == old(self).wspec().num_exts,
            final(self).wspec().num_ints == old(self).wspec().num_ints,
            final(self).all_constraints() == old(self).all_constraints(),
            final(self).max_deg() == old(self).max_deg(),
            old(self).wf() ==> final(self).wf(),
    {
        self.spec.round_specs.push(RoundWitnessSpec { pubs: 0, privs: 0 });
    }

    pub fn witness_spec(&self) -> (r: &WitnessSpec)
        ensures
            *r == self.wspec(),
    {
        &self.spec
    }

    /// Numbers of linear and nonlinear output values, and the maximal degree.
    pub fn constr_spec(&self) -> (r: ConstrSpec)
        requires
            self.wf(),
            groups_rhs(self.groups()) <= usize::MAX,
        ensures
            r.num_lin_constraints == self.linear().num_rhs,
            r.num_nonlinear_constraints == groups_rhs(self.groups()),
            r.num_nonlinear_constraints == rhs_count(self.nonlinear()),
            r.max_degree == self.max_deg(),
    {
        let mut total: usize = 0;
        let mut i: usize = 0;
        proof {
            assert(self.groups().take(0) =~= Seq::<ConstraintGroup<G>>::empty());
        }
        while i < self.non_linear_constraints.len()
            invariant
                i <= self.groups().len(),
                groups_rhs(self.groups()) <= usize::MAX,
                total == groups_rhs(self.groups().take(i as int)),
            decreases self.groups().len() - i,
        {
            proof {
                assert(self.groups().take(i + 1).drop_last() =~= self.groups().take(i as int));
                lemma_groups_rhs_mono(self.groups(), i + 1);
            }
            total = total + self.non_linear_constraints[i].num_rhs;
            i = i + 1;
        }
        proof {
            assert(self.groups().take(self.groups().len() as int) =~= self.groups());
            lemma_groups_rhs_count(self.groups());
        }
        ConstrSpec {
            num_lin_constraints: self.linear_constraints.num_rhs,
            num_nonlinear_constraints: total,
            max_degree: self.max_degree,
        }
    }

    /// Allocates `size` variables in a round: indices continue after the
    /// ones allocated before with that visibility.
    pub fn alloc_in_round(&mut self, round: usize, visibility: Visibility, size: usize) -> (r: Vec<Variable>)
        requires
            round < old(self).wspec().round_specs@.len(),
            visibility == Visibility::Public ==> old(self).wspec().round_specs@[round as int].pubs + size <= usize::MAX,
            visibility == Visibility::Private ==> old(self).wspec().round_specs@[round as int].privs + size <= usize::MAX,
        ensures
            visibility == Visibility::Public ==> {
                &&& r@ == var_range(visibility, round, old(self).wspec().round_specs@[round as int].pubs as nat, size as nat)
                &&& final(self).wspec().round_specs@ == old(self).wspec().round_specs@.update(
                    round as int,
                    RoundWitnessSpec {
                        pubs: (old(self).wspec().round_specs@[round as int].pubs + size) as usize,
                        privs: old(self).wspec().round_specs@[round as int].privs,
                    },
                )
            },
            visibility == Visibility::Private ==> {
                &&& r@ == var_range(visibility, round, old(self).wspec().round_specs@[round as int].privs as nat, size as nat)
                &&& final(self).wspec().round_specs@ == old(self).wspec().round_specs@.update(
                    round as int,
                    RoundWitnessSpec {
                        pubs: old(self).wspec().round_specs@[round as int].pubs,
                        privs: (old(self).wspec().round_specs@[round as int].privs + size) as usize,
                    },
                )
            },
            final(self).wspec().num_exts == old(self).wspec().num_exts,
            final(self).wspec().num_ints == old(self).wspec().num_ints,
            final(self).all_constraints() == old(self).all_constraints(),
            final(self).max_deg() == old(self).max_deg(),
            final(self).linear() == old(self).linear(),
            final(self).groups() == old(self).groups(),
            old(self).wf() ==> final(self).wf(),
    {
        let rs = self.spec.round_specs[round];
        let prev = match visibility {
            Visibility::Public => {
                self.spec.round_specs.set(round, RoundWitnessSpec { pubs: rs.pubs + size, privs: rs.privs });
                rs.pubs
            },
            Visibility::Private => {
                self.spec.round_specs.set(round, RoundWitnessSpec { pubs: rs.pubs, privs: rs.privs + size });
                rs.privs
            },
        };
        let mut out: Vec<Variable> = Vec::new();
        let mut k: usize = 0;
        while k < size
            invariant
                k <= size,
                prev + size <= usize::MAX,
                out@ == var_range(visibility, round, prev as nat, k as nat),
            decreases size - k,
        {
            out.push(Variable { visibility, round, index: prev + k });
            k = k + 1;
            proof {
                assert(out@ =~= var_range(visibility, round, prev as nat, k as nat));
            }
        }
        out
    }

    /// Allocates `size` variables in the last round.
    pub fn allocate(&mut self, visibility: Visibility, size: usize) -> (r: Vec<Variable>)
        requires
            old(self).wspec().round_specs@.len() > 0,
            visibility == Visibility::Public ==> old(self).wspec().round_specs@.last().pubs + size <= usize::MAX,
            visibility == Visibility::Private ==> old(self).wspec().round_specs@.last().privs + size <= usize::MAX,
        ensures
            visibility == Visibility::Public ==> r@ == var_range(
                visibility,
                (old(self).wspec().round_specs@.len() - 1) as usize,
                old(self).wspec().round_specs@.last().pubs as nat,
                size as nat,
            ),
            visibility == Visibility::Private ==> r@ == var_range(
                visibility,
                (old(self).wspec().round_specs@.len() - 1) as usize,
                old(self).wspec().round_specs@.last().privs as nat,
                size as nat,
            ),
            final(self).wspec().round_specs@.len() == old(self).wspec().round_specs@.len(),
            final(self).all_constraints() == old(self).all_constraints(),
    {
        let last = self.last_round();
        self.alloc_in_round(last, visibility, size)
    }

    /// Adds a constraint; its gate must have positive degree and take as
    /// many inputs as given. Degree-1 gates join the linear group, others the
    /// group of their degree.
    pub fn constrain(&mut self, kind: CommitKind, inputs: &[Variable], gate: G)
        requires
            old(self).wf(),
            gate.spec_d() >= 1,
            gate.spec_i() == inputs@.len(),
            old(self).linear().num_rhs + gate.spec_o() <= usize::MAX,
            groups_rhs(old(self).groups()) + gate.spec_o() <= usize::MAX,
        ensures
            final(self).wf(),
            final(self).max_deg() == if gate.spec_d() > old(self).max_deg() {
                gate.spec_d()
            } else {
                old(self).max_deg() as nat
            },
            final(self).wspec() == old(self).wspec(),
            gate.spec_d() == 1 ==> {
                &&& final(self).linear().entries@.len() == old(self).linear().entries@.len() + 1
                &&& final(self).linear().entries@.drop_last() == old(self).linear().entries@
                &&& final(self).linear().entries@.last().gate == gate
                &&& final(self).linear().entries@.last().inputs@ == inputs@
                &&& final(self).groups() == old(self).groups()
            },
            gate.spec_d() > 1 ==> {
                &&& final(self).linear() == old(self).linear()
                &&& rhs_count(final(self).nonlinear()) == rhs_count(old(self).nonlinear()) + gate.spec_o()
                &&& final(self).nonlinear().len() == old(self).nonlinear().len() + 1
            },
            groups_rhs(final(self).groups()) == groups_rhs(old(self).groups()) + if gate.spec_d() > 1 {
                gate.spec_o()
            } else {
                0
            },
            added_one(final(self).all_constraints(), old(self).all_constraints(), gate, inputs@),
    {
        let d = gate.d();
        if d > self.max_degree {
            self.max_degree = d;
        }
        if d == 1 {
            self.linear_constraints.constrain(inputs, gate);
            proof {
                assert forall|c: Constraint<G>| #[trigger] self.linear().entries@.contains(c) implies c.gate.spec_d() == 1 && c.inputs@.len() == c.gate.spec_i() by {
                    let k = choose|k: int| 0 <= k < self.linear().entries@.len() && self.linear().entries@[k] == c;
                    if k < old(self).linear().entries@.len() {
                        assert(old(self).linear().entries@.contains(c));
                    }
                }
                assert(self.linear().entries@.drop_last() =~= old(self).linear().entries@);
                lemma_push_front_part(old(self).linear().entries@, self.linear().entries@.last(), self.nonlinear());
            }
        } else {
            self.constrain_nonlinear(inputs, gate);
            proof {
                lemma_same_front_part(self.linear().entries@, old(self).nonlinear(), self.nonlinear(), gate, inputs@);
            }
        }
    }

    /// Adds a constraint of degree at least 2 to the group of its degree,
    /// creating that group in its place when it is new.
    fn constrain_nonlinear(&mut self, inputs: &[Variable], gate: G)
        requires
            old(self).wf(),
            gate.spec_d() >= 2,
            gate.spec_i() == inputs@.len(),
            groups_rhs(old(self).groups()) + gate.spec_o() <= usize::MAX,
        ensures
            final(self).wf(),
            final(self).max_deg() == old(self).max_deg(),
            final(self).wspec() == old(self).wspec(),
            final(self).linear() == old(self).linear(),
            rhs_count(final(self).nonlinear()) == rhs_count(old(self).nonlinear()) + gate.spec_o(),
            final(self).nonlinear().len() == old(self).nonlinear().len() + 1,
            groups_rhs(final(self).groups()) == groups_rhs(old(self).groups()) + gate.spec_o(),
            added_one(final(self).nonlinear(), old(self).nonlinear(), gate, inputs@),
    {
        let d = gate.d();
        // Position of the first group of degree at least d.
        let mut pos: usize = 0;
        while pos < self.non_linear_degrees.len() && self.non_linear_degrees[pos] < d
            invariant
                pos <= self.degrees().len(),
                forall|k: int| 0 <= k < pos ==> self.degrees()[k] < d,
            decreases self.degrees().len() - pos,
        {
            pos = pos + 1;
        }
        proof {
            lemma_groups_rhs_count(old(self).groups());
            lemma_groups_rhs_bound(old(self).groups(), pos as int);
        }
        if pos < self.non_linear_degrees.len() && self.non_linear_degrees[pos] == d {
            let mut g = self.non_linear_constraints.remove(pos);
            g.constrain(inputs, gate);
            self.non_linear_constraints.insert(pos, g);
            proof {
                lemma_replace_group(old(self).groups(), self.groups(), pos as int, gate.spec_o());
                assert(self.groups()[pos as int].entries@.drop_last() =~= old(self).groups()[pos as int].entries@);
                lemma_flatten_replace(old(self).groups(), self.groups(), pos as int, gate, inputs@);
            }
        } else {
            let mut g: ConstraintGroup<G> = ConstraintGroup::new();
            g.constrain(inputs, gate);
            self.non_linear_degrees.insert(pos, d);
            self.non_linear_constraints.insert(pos, g);
            proof {
                lemma_insert_group(old(self).groups(), self.groups(), pos as int, gate.spec_o());
                lemma_flatten_insert(old(self).groups(), self.groups(), pos as int, gate, inputs@);
            }
        }
        proof {
            lemma_groups_rhs_count(self.groups());
            assert forall|i: int, k: int|
                0 <= i < self.groups().len() && 0 <= k < self.groups()[i].entries@.len() implies (
                #[trigger] self.groups()[i].entries@[k]).gate.spec_d() == self.degrees()[i]
                && self.groups()[i].entries@[k].inputs@.len() == self.groups()[i].entries@[k].gate.spec_i() by {
                if i < pos {
                    assert(self.groups()[i] == old(self).groups()[i]);
                } else if i > pos {
                    assert(self.groups()[i] == old(self).groups()[i - self.groups().len() + old(self).groups().len()]);
                } else if k < self.groups()[i].entries@.len() - 1 {
                    if self.groups().len() == old(self).groups().len() {
                        assert(self.groups()[i].entries@[k] == old(self).groups()[i].entries@[k]);
                    }
                }
            }
        }
    }

    /// Registers `size` external values, numbered after the ones before.
    pub fn extval(&mut self, size: usize) -> (r: Vec<crate::constraint_system::ExternalValue>)
        requires
            old(self).wspec().num_exts + size <= usize::MAX,
        ensures
            final(self).wspec().num_exts == old(self).wspec().num_exts + size,
            final(self).wspec().round_specs == old(self).wspec().round_specs,
            final(self).wspec().num_ints == old(self).wspec().num_ints,
            final(self).all_constraints() == old(self).all_constraints(),
            final(self).max_deg() == old(self).max_deg(),
            r@.len() == size,
            forall|k: int| 0 <= k < size ==> #[trigger] r@[k].addr == old(self).wspec().num_exts + k,
            old(self).wf() ==> final(self).wf(),
            final(self).linear() == old(self).linear(),
            final(self).groups() == old(self).groups(),
    {
        let prev = self.spec.num_exts;
        self.spec.num_exts = self.spec.num_exts + size;
        let mut out: Vec<ExternalValue> = Vec::new();
        let mut k: usize = 0;
        while k < size
            invariant
                k <= size,
                prev + size <= usize::MAX,
                out@.len() == k,
                forall|j: int| 0 <= j < k ==> #[trigger] out@[j].addr == prev + j,
            decreases size - k,
        {
            out.push(ExternalValue { addr: prev + k });
            k = k + 1;
        }
        out
    }

    /// All constraints: linear first, then nonlinear by increasing degree.
    pub fn iter_constraints(&self) -> (r: Vec<&Constraint<G>>)
        ensures
            r@.len() == self.all_constraints().len(),
            forall|k: int| 0 <= k < r@.len() ==> *(#[trigger] r@[k]) == self.all_constraints()[k],
    {
        let mut out = self.iter_linear_constraints();
        let nl = self.iter_non_linear_constraints();
        let mut k: usize = 0;
        let ghost n0 = out@.len();
        while k < nl.len()
            invariant
                k <= nl@.len(),
                n0 == self.linear().entries@.len(),
                nl@.len() == self.nonlinear().len(),
                forall|j: int| 0 <= j < nl@.len() ==> *(#[trigger] nl@[j]) == self.nonlinear()[j],
                out@.len() == n0 + k,
                forall|j: int| 0 <= j < n0 + k ==> *(#[trigger] out@[j]) == self.all_constraints()[j],
            decreases nl@.len() - k,
        {
            out.push(nl[k]);
            k = k + 1;
        }
        out
    }

    /// The linear constraints.
    pub fn iter_linear_constraints(&self) -> (r: Vec<&Constraint<G>>)
        ensures
            r@.len() == self.linear().entries@.len(),
            forall|k: int| 0 <= k < r@.len() ==> *(#[trigger] r@[k]) == self.linear().entries@[k],
    {
        let mut out: Vec<&Constraint<G>> = Vec::new();
        let mut k: usize = 0;
        while k < self.linear_constraints.entries.len()
            invariant
                k <= self.linear().entries@.len(),
                out@.len() == k,
                forall|j: int| 0 <= j < k ==> *(#[trigger] out@[j]) == self.linear().entries@[j],
            decreases self.linear().entries@.len() - k,
        {
            out.push(&self.linear_constraints.entries[k]);
            k = k + 1;
        }
        out
    }

    /// The nonlinear constraints, by increasing degree.
    pub fn iter_non_linear_constraints(&self) -> (r: Vec<&Constraint<G>>)
        ensures
            r@.len() == self.nonlinear().len(),
            forall|k: int| 0 <= k < r@.len() ==> *(#[trigger] r@[k]) == self.nonlinear()[k],
    {
        let mut out: Vec<&Constraint<G>> = Vec::new();
        let mut g: usize = 0;
        proof {
            assert(self.groups().take(0) =~= Seq::<ConstraintGroup<G>>::empty());
        }
        while g < self.non_linear_constraints.len()
            invariant
                g <= self.groups().len(),
                out@.len() == flatten_groups(self.groups().take(g as int)).len(),
                forall|j: int| 0 <= j < out@.len() ==> *(#[trigger] out@[j]) == flatten_groups(self.groups().take(g as int))[j],
            decreases self.groups().len() - g,
        {
            let grp = &self.non_linear_constraints[g];
            let ghost before = flatten_groups(self.groups().take(g as int));
            let mut k: usize = 0;
            while k < grp.entries.len()
                invariant
                    k <= grp.entries@.len(),
                    out@.len() == before.len() + k,
                    forall|j: int| 0 <= j < before.len() ==> *(#[trigger] out@[j]) == before[j],
                    forall|j: int| 0 <= j < k ==> *(#[trigger] out@[before.len() + j]) == grp.entries@[j],
                decreases grp.entries@.len() - k,
            {
                out.push(&grp.entries[k]);
                k = k + 1;
            }
            proof {
                assert(self.groups().take(g + 1).drop_last() =~= self.groups().take(g as int));
                let after = flatten_groups(self.groups().take(g + 1));
                assert(after == before + grp.entries@);
                assert forall|j: int| 0 <= j < out@.len() implies *(#[trigger] out@[j]) == after[j] by {
                    if j >= before.len() {
                        assert(out@[before.len() + (j - before.len())] == out@[j]);
                    }
                }
            }
            g = g + 1;
        }
        proof {
            assert(self.groups().take(self.groups().len() as int) =~= self.groups());
        }
        out
    }
}

proof fn lemma_groups_rhs_mono<G>(groups: Seq<ConstraintGroup<G>>, i: int)
    requires
        0 <= i <= groups.len(),
    ensures
        groups_rhs(groups.take(i)) <= groups_rhs(groups),
    decreases groups.len() - i,
{
    if i < groups.len() {
        assert(groups.take(i + 1).drop_last() =~= groups.take(i));
        lemma_groups_rhs_mono(groups, i + 1);
    } else {
        assert(groups.take(i) =~= groups);
    }
}

/// The `num_rhs` of well-formed groups count the outputs of their entries.
proof fn lemma_groups_rhs_count<G: Gate>(groups: Seq<ConstraintGroup<G>>)
    requires
        forall|i: int| 0 <= i < groups.len() ==> (#[trigger] groups[i]).wf(),
    ensures
        groups_rhs(groups) == rhs_count(flatten_groups(groups)),
    decreases groups.len(),
{
    if groups.len() > 0 {
        lemma_groups_rhs_count(groups.drop_last());
        lemma_rhs_count_append(flatten_groups(groups.drop_last()), groups.last().entries@);
        assert(groups.last().wf());
    }
}

proof fn lemma_rhs_count_append<G: Gate>(a: Seq<Constraint<G>>, b: Seq<Constraint<G>>)
    ensures
        rhs_count(a + b) == rhs_count(a) + rhs_count(b),
    decreases b.len(),
{
    if b.len() == 0 {
        assert(a + b =~= a);
    } else {
        lemma_rhs_count_append(a, b.drop_last());
        assert((a + b).drop_last() =~= a + b.drop_last());
    }
}

proof fn lemma_groups_rhs_bound<G>(groups: Seq<ConstraintGroup<G>>, pos: int)
    requires
        0 <= pos <= groups.len(),
    ensures
        pos < groups.len() ==> groups[pos].num_rhs <= groups_rhs(groups),
    decreases groups.len(),
{
    if pos < groups.len() {
        if pos == groups.len() - 1 {
        } else {
            lemma_groups_rhs_bound(groups.drop_last(), pos);
        }
    }
}

proof fn lemma_replace_group<G: Gate>(old_g: Seq<ConstraintGroup<G>>, new_g: Seq<ConstraintGroup<G>>, pos: int, o: nat)
    requires
        0 <= pos < old_g.len(),
        new_g.len() == old_g.len(),
        forall|i: int| 0 <= i < old_g.len() && i != pos ==> new_g[i] == old_g[i],
        new_g[pos].num_rhs == old_g[pos].num_rhs + o,
        new_g[pos].entries@.len() == old_g[pos].entries@.len() + 1,
    ensures
        groups_rhs(new_g) == groups_rhs(old_g) + o,
        flatten_groups(new_g).len() == flatten_groups(old_g).len() + 1,
    decreases old_g.len(),
{
    if pos < old_g.len() - 1 {
        lemma_replace_group(old_g.drop_last(), new_g.drop_last(), pos, o);
    } else {
        assert(new_g.drop_last() =~= old_g.drop_last());
    }
}

proof fn lemma_insert_group<G: Gate>(old_g: Seq<ConstraintGroup<G>>, new_g: Seq<ConstraintGroup<G>>, pos: int, o: nat)
    requires
        0 <= pos <= old_g.len(),
        new_g == old_g.insert(pos, new_g[pos]),
        new_g[pos].num_rhs == o,
        new_g[pos].entries@.len() == 1,
    ensures
        groups_rhs(new_g) == groups_rhs(old_g) + o,
        flatten_groups(new_g).len() == flatten_groups(old_g).len() + 1,
    decreases old_g.len(),
{
    if pos == old_g.len() {
        assert(new_g.drop_last() =~= old_g);
    } else {
        assert(new_g.drop_last() =~= old_g.drop_last().insert(pos, new_g[pos]));
        assert(new_g.drop_last()[pos] == new_g[pos]);
        lemma_insert_group(old_g.drop_last(), new_g.drop_last(), pos, o);
        assert(new_g.last() == old_g.last());
    }
}

/// Adding `c` at the end of the first part adds it to the whole.
proof fn lemma_push_front_part<G>(a: Seq<Constraint<G>>, c: Constraint<G>, b: Seq<Constraint<G>>)
    ensures
        added_one(a.push(c) + b, a + b, c.gate, c.inputs@),
{
    let after = a.push(c) + b;
    let before = a + b;
    assert(after[a.len() as int] == c);
    assert forall|k: int| 0 <= k < before.len() implies #[trigger] after.contains(before[k]) by {
        if k < a.len() {
            assert(after[k] == before[k]);
        } else {
            assert(after[k + 1] == before[k]);
        }
    }
    assert forall|k: int| 0 <= k < after.len() implies before.contains(#[trigger] after[k]) || (after[k].gate == c.gate
        && after[k].inputs@ == c.inputs@) by {
        if k < a.len() {
            assert(before[k] == after[k]);
        } else if k > a.len() {
            assert(before[k - 1] == after[k]);
        }
    }
}

/// Adding to the second part adds to the whole.
proof fn lemma_same_front_part<G>(a: Seq<Constraint<G>>, b0: Seq<Constraint<G>>, b1: Seq<Constraint<G>>, g: G, inputs: Seq<Variable>)
    requires
        added_one(b1, b0, g, inputs),
    ensures
        added_one(a + b1, a + b0, g, inputs),
{
    let after = a + b1;
    let before = a + b0;
    assert forall|k: int| 0 <= k < before.len() implies #[trigger] after.contains(before[k]) by {
        if k < a.len() {
            assert(after[k] == before[k]);
        } else {
            assert(b1.contains(b0[k - a.len()]));
            let j = choose|j: int| 0 <= j < b1.len() && b1[j] == b0[k - a.len()];
            assert(after[j + a.len()] == before[k]);
        }
    }
    assert forall|k: int| 0 <= k < after.len() implies before.contains(#[trigger] after[k]) || (after[k].gate == g
        && after[k].inputs@ == inputs) by {
        if k < a.len() {
            assert(before[k] == after[k]);
        } else {
            assert(after[k] == b1[k - a.len()]);
            if b0.contains(b1[k - a.len()]) {
                let j = choose|j: int| 0 <= j < b0.len() && b0[j] == b1[k - a.len()];
                assert(before[j + a.len()] == after[k]);
            }
        }
    }
    let j = choose|j: int| 0 <= j < b1.len() && (#[trigger] b1[j]).gate == g && b1[j].inputs@ == inputs;
    assert(after[j + a.len()] == b1[j]);
}

/// Adding to the last part of a concatenation adds to the whole.
proof fn lemma_added_concat_back<G>(a0: Seq<Constraint<G>>, a1: Seq<Constraint<G>>, b: Seq<Constraint<G>>, g: G, inputs: Seq<Variable>)
    requires
        added_one(a1, a0, g, inputs),
    ensures
        added_one(a1 + b, a0 + b, g, inputs),
{
    let after = a1 + b;
    let before = a0 + b;
    assert forall|k: int| 0 <= k < before.len() implies #[trigger] after.contains(before[k]) by {
        if k < a0.len() {
            assert(a1.contains(a0[k]));
            let j = choose|j: int| 0 <= j < a1.len() && a1[j] == a0[k];
            assert(after[j] == before[k]);
        } else {
            assert(after[k + 1] == before[k]);
        }
    }
    assert forall|k: int| 0 <= k < after.len() implies before.contains(#[trigger] after[k]) || (after[k].gate == g
        && after[k].inputs@ == inputs) by {
        if k < a1.len() {
            assert(after[k] == a1[k]);
            if a0.contains(a1[k]) {
                let j = choose|j: int| 0 <= j < a0.len() && a0[j] == a1[k];
                assert(before[j] == after[k]);
            }
        } else {
            assert(before[k - 1] == after[k]);
        }
    }
    let j = choose|j: int| 0 <= j < a1.len() && (#[trigger] a1[j]).gate == g && a1[j].inputs@ == inputs;
    assert(after[j] == a1[j]);
}

/// Adding a constraint to the group at `pos` adds it to the flattening.
proof fn lemma_flatten_replace<G>(
    old_g: Seq<ConstraintGroup<G>>,
    new_g: Seq<ConstraintGroup<G>>,
    pos: int,
    g: G,
    inputs: Seq<Variable>,
)
    requires
        0 <= pos < old_g.len(),
        new_g.len() == old_g.len(),
        forall|i: int| 0 <= i < old_g.len() && i != pos ==> new_g[i] == old_g[i],
        new_g[pos].entries@.drop_last() == old_g[pos].entries@,
        new_g[pos].entries@.len() == old_g[pos].entries@.len() + 1,
        new_g[pos].entries@.last().gate == g,
        new_g[pos].entries@.last().inputs@ == inputs,
    ensures
        added_one(flatten_groups(new_g), flatten_groups(old_g), g, inputs),
    decreases old_g.len(),
{
    let e0 = old_g[pos].entries@;
    let e1 = new_g[pos].entries@;
    if pos < old_g.len() - 1 {
        lemma_flatten_replace(old_g.drop_last(), new_g.drop_last(), pos, g, inputs);
        assert(new_g.last() == old_g.last());
        lemma_added_concat_back(flatten_groups(old_g.drop_last()), flatten_groups(new_g.drop_last()), old_g.last().entries@, g, inputs);
    } else {
        assert(new_g.drop_last() =~= old_g.drop_last());
        assert(e1 =~= e0.push(e1.last()));
        lemma_push_front_part(e0, e1.last(), Seq::<Constraint<G>>::empty());
        assert(e0.push(e1.last()) + Seq::<Constraint<G>>::empty() =~= e1);
        assert(e0 + Seq::<Constraint<G>>::empty() =~= e0);
        lemma_same_front_part(flatten_groups(old_g.drop_last()), e0, e1, g, inputs);
    }
}

/// Inserting a group of one constraint adds it to the flattening.
proof fn lemma_flatten_insert<G>(
    old_g: Seq<ConstraintGroup<G>>,
    new_g: Seq<ConstraintGroup<G>>,
    pos: int,
    g: G,
    inputs: Seq<Variable>,
)
    requires
        0 <= pos <= old_g.len(),
        new_g == old_g.insert(pos, new_g[pos]),
        new_g[pos].entries@.len() == 1,
        new_g[pos].entries@[0].gate == g,
        new_g[pos].entries@[0].inputs@ == inputs,
    ensures
        added_one(flatten_groups(new_g), flatten_groups(old_g), g, inputs),
    decreases old_g.len(),
{
    let e1 = new_g[pos].entries@;
    if pos == old_g.len() {
        assert(new_g.drop_last() =~= old_g);
        assert(e1 =~= Seq::<Constraint<G>>::empty().push(e1[0]));
        lemma_push_front_part(Seq::<Constraint<G>>::empty(), e1[0], Seq::<Constraint<G>>::empty());
        assert(Seq::<Constraint<G>>::empty().push(e1[0]) + Seq::<Constraint<G>>::empty() =~= e1);
        assert(Seq::<Constraint<G>>::empty() + Seq::<Constraint<G>>::empty() =~= Seq::<Constraint<G>>::empty());
        lemma_same_front_part(flatten_groups(old_g), Seq::<Constraint<G>>::empty(), e1, g, inputs);
        assert(flatten_groups(old_g) + Seq::<Constraint<G>>::empty() =~= flatten_groups(old_g));
    } else {
        assert(new_g.drop_last() =~= old_g.drop_last().insert(pos, new_g[pos]));
        assert(new_g.drop_last()[pos] == new_g[pos]);
        lemma_flatten_insert(old_g.drop_last(), new_g.drop_last(), pos, g, inputs);
        assert(new_g.last() == old_g.last());
        lemma_added_concat_back(flatten_groups(old_g.drop_last()), flatten_groups(new_g.drop_last()), old_g.last().entries@, g, inputs);
    }
}

} // verus!
