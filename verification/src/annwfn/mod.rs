//! A typed circuit-builder prototype: typed signals allocated in a storage
//! layout, commitment groups over them, constraints and execution steps.

pub mod storage;
pub mod circuit;
pub mod committer;

use vstd::prelude::*;
use std::marker::PhantomData;
use vstd::arithmetic::power::pow;
use storage::{AllocatorOf, ReaderOf, TRunStorage, TStorageBuilder, WriterOf};
use vstd::std_specs::convert::FromSpecImpl;

verus! {

/// Typed address of a signal.
pub struct Sig<T> {
    idx: usize,
    _pd: PhantomData<T>,
}

impl<T> Clone for Sig<T> {
    fn clone(&self) -> (r: Self)
        ensures
            r == *self,
    {
        Self { idx: self.idx, _pd: PhantomData }
    }
}

impl<T> Copy for Sig<T> {}

impl<T> Sig<T> {
    /// Position of the signal among the signals of its type.
    pub closed spec fn index(&self) -> nat {
        self.idx as nat
    }

    pub fn new(idx: usize) -> (r: Self)
        ensures
            r.index() == idx,
    {
        Self { idx, _pd: PhantomData }
    }
}

/// Counts the signals of each type allocated so far.
pub struct StorageBuilder {
    b_idx: usize,
    u64_idx: usize,
}

impl StorageBuilder {
    /// Number of `bool` signals allocated.
    pub closed spec fn num_bools(&self) -> nat {
        self.b_idx as nat
    }

    /// Number of `u64` signals allocated.
    pub closed spec fn num_u64s(&self) -> nat {
        self.u64_idx as nat
    }

    pub fn new() -> (r: Self)
        ensures
            r.num_bools() == 0,
            r.num_u64s() == 0,
    {
        Self { b_idx: 0, u64_idx: 0 }
    }
}

impl TStorageBuilder for StorageBuilder {
    type RunStorage = Witness;

    /// The storage of a run: empty, with room reserved for the allocated signals.
    fn spawn(&self) -> (r: Witness)
        ensures
            r.bool_cells() == Seq::<Option<bool>>::empty(),
            r.u64_cells() == Seq::<Option<u64>>::empty(),
    {
        Witness { bools: Vec::with_capacity(self.b_idx), u64s: Vec::with_capacity(self.u64_idx) }
    }
}

impl AllocatorOf<bool> for StorageBuilder {
    open spec fn can_allocate(&self) -> bool {
        self.num_bools() < usize::MAX
    }

    open spec fn next_index(&self) -> nat {
        self.num_bools()
    }

    open spec fn allocated_one(&self, before: &Self) -> bool {
        &&& self.num_bools() == before.num_bools() + 1
        &&& self.num_u64s() == before.num_u64s()
    }

    fn allocate(&mut self) -> (r: Sig<bool>)
    {
        self.b_idx = self.b_idx + 1;
        Sig { idx: self.b_idx - 1, _pd: PhantomData }
    }
}

impl AllocatorOf<u64> for StorageBuilder {
    open spec fn can_allocate(&self) -> bool {
        self.num_u64s() < usize::MAX
    }

    open spec fn next_index(&self) -> nat {
        self.num_u64s()
    }

    open spec fn allocated_one(&self, before: &Self) -> bool {
        &&& self.num_u64s() == before.num_u64s() + 1
        &&& self.num_bools() == before.num_bools()
    }

    fn allocate(&mut self) -> (r: Sig<u64>)
    {
        self.u64_idx = self.u64_idx + 1;
        Sig { idx: self.u64_idx - 1, _pd: PhantomData }
    }
}

/// The values of a run's signals, `None` until written.
pub struct Witness {
    bools: Vec<Option<bool>>,
    u64s: Vec<Option<u64>>,
}

impl Witness {
    /// The `bool` cells.
    pub closed spec fn bool_cells(&self) -> Seq<Option<bool>> {
        self.bools@
    }

    /// The `u64` cells.
    pub closed spec fn u64_cells(&self) -> Seq<Option<u64>> {
        self.u64s@
    }
}

impl TRunStorage for Witness {}

impl WriterOf<bool> for Witness {
    open spec fn has_cell(&self, addr: Sig<bool>) -> bool {
        addr.index() < self.bool_cells().len()
    }

    open spec fn cell(&self, addr: Sig<bool>) -> Option<bool> {
        self.bool_cells()[addr.index() as int]
    }

    fn put(&mut self, addr: &Sig<bool>, val: bool)
        ensures
            final(self).bool_cells() == old(self).bool_cells().update(addr.index() as int, Some(val)),
            final(self).u64_cells() == old(self).u64_cells(),
    {
        self.bools.set(addr.idx, Some(val));
    }
}

impl ReaderOf<bool> for Witness {
    open spec fn read(&self, addr: Sig<bool>) -> Option<bool> {
        if addr.index() < self.bool_cells().len() {
            self.bool_cells()[addr.index() as int]
        } else {
            None
        }
    }

    fn get(&self, addr: &Sig<bool>) -> (r: &bool) {
        self.bools[addr.idx].as_ref().unwrap()
    }
}

impl WriterOf<u64> for Witness {
    open spec fn has_cell(&self, addr: Sig<u64>) -> bool {
        addr.index() < self.u64_cells().len()
    }

    open spec fn cell(&self, addr: Sig<u64>) -> Option<u64> {
        self.u64_cells()[addr.index() as int]
    }

    fn put(&mut self, addr: &Sig<u64>, val: u64)
        ensures
            final(self).u64_cells() == old(self).u64_cells().update(addr.index() as int, Some(val)),
            final(self).bool_cells() == old(self).bool_cells(),
    {
        self.u64s.set(addr.idx, Some(val));
    }
}

impl ReaderOf<u64> for Witness {
    open spec fn read(&self, addr: Sig<u64>) -> Option<u64> {
        if addr.index() < self.u64_cells().len() {
            self.u64_cells()[addr.index() as int]
        } else {
            None
        }
    }

    fn get(&self, addr: &Sig<u64>) -> (r: &u64) {
        self.u64s[addr.idx].as_ref().unwrap()
    }
}

/// A variable while the circuit is built: a value private to a computation
/// step (`V`), or a signal (`S`).
pub enum BuildVar<T> {
    V,
    S(Sig<T>),
}

impl<T> Clone for BuildVar<T> {
    fn clone(&self) -> (r: Self)
        ensures
            r == *self,
    {
        match self {
            Self::V => Self::V,
            Self::S(arg0) => Self::S(arg0.clone()),
        }
    }
}

impl<T> Copy for BuildVar<T> {}

impl<T> From<Sig<T>> for BuildVar<T> {
    fn from(value: Sig<T>) -> (r: Self) {
        Self::S(value)
    }
}

impl<T> FromSpecImpl<Sig<T>> for BuildVar<T> {
    open spec fn obeys_from_spec() -> bool {
        true
    }

    open spec fn from_spec(v: Sig<T>) -> Self {
        BuildVar::S(v)
    }
}

/// A variable while a computation step runs: a write-once value private to
/// the step (`V`), or a signal in the run storage (`S`).
pub enum RunVar<T> {
    V(Option<T>),
    S(Sig<T>),
}

impl<T> From<BuildVar<T>> for RunVar<T> {
    fn from(var: BuildVar<T>) -> (r: Self) {
        match var {
            BuildVar::V => Self::V(None),
            BuildVar::S(s) => Self::S(s),
        }
    }
}

impl<T> FromSpecImpl<BuildVar<T>> for RunVar<T> {
    open spec fn obeys_from_spec() -> bool {
        true
    }

    open spec fn from_spec(v: BuildVar<T>) -> Self {
        match v {
            BuildVar::V => RunVar::V(None),
            BuildVar::S(s) => RunVar::S(s),
        }
    }
}

impl<T> RunVar<T> {
    /// The value a read finds: the private value, or what the storage holds.
    pub open spec fn value_in(&self, storage: &Witness) -> Option<T>
        where Witness: ReaderOf<T>
    {
        match self {
            RunVar::V(cell) => *cell,
            RunVar::S(sig) => storage.read(*sig),
        }
    }

    /// Reads the variable; it must have been written.
    pub fn get_from<'a>(&'a self, storage: &'a Witness) -> (r: &'a T)
        where Witness: ReaderOf<T>
        requires
            self.value_in(storage) is Some,
        ensures
            *r == self.value_in(storage)->0,
    {
        match self {
            RunVar::V(cell) => cell.as_ref().unwrap(),
            RunVar::S(sig) => storage.get(sig),
        }
    }

    /// Writes the variable: a private value only once, a signal into its cell.
    pub fn set_to(&mut self, storage: &mut Witness, value: T)
        where Witness: WriterOf<T>
        requires
            *old(self) matches RunVar::V(cell) ==> cell is None,
            *old(self) matches RunVar::S(sig) ==> old(storage).has_cell(sig),
        ensures
            *old(self) matches RunVar::V(_) ==> *final(self) == RunVar::V(Some(value)) && *final(storage) == *old(storage),
            *old(self) matches RunVar::S(sig) ==> *final(self) == *old(self) && final(storage).cell(sig) == Some(value),
    {
        match self {
            RunVar::V(cell) => {
                *cell = Some(value);
            },
            RunVar::S(sig) => {
                storage.put(sig, value);
            },
        }
    }
}

/// Sum of `vals[i] * seed^i`.
pub open spec fn commit_sum(vals: Seq<nat>, seed: nat) -> nat
    decreases vals.len(),
{
    if vals.len() == 0 {
        0
    } else {
        (commit_sum(vals.drop_last(), seed) + vals.last() * pow(seed as int, (vals.len() - 1) as nat)) as nat
    }
}

/// Every partial sum and every power of the seed up to the length fits in a `u64`.
pub open spec fn commit_fits(vals: Seq<nat>, seed: nat) -> bool {
    forall|k: int|
        1 <= k <= vals.len() ==> #[trigger] commit_sum(vals.take(k), seed) <= u64::MAX && pow(seed as int, k as nat)
            <= u64::MAX
}

/// A group of signals committed together by a polynomial in a seed.
pub struct GenericCommitmentGroup {
    u64_addrs: Vec<Sig<u64>>,
    bool_addrs: Vec<Sig<bool>>,
}

impl GenericCommitmentGroup {
    /// The `u64` signals of the group.
    pub closed spec fn u64_addrs(&self) -> Seq<Sig<u64>> {
        self.u64_addrs@
    }

    /// The `bool` signals of the group.
    pub closed spec fn bool_addrs(&self) -> Seq<Sig<bool>> {
        self.bool_addrs@
    }

    /// The committed values: the `u64` signals, then the `bool` signals as 0 or 1.
    pub open spec fn values(&self, storage: &Witness) -> Seq<nat> {
        self.u64_addrs().map_values(|a: Sig<u64>| ReaderOf::<u64>::read(storage, a)->0 as nat) + self.bool_addrs().map_values(
            |a: Sig<bool>|
                if ReaderOf::<bool>::read(storage, a)->0 {
                    1nat
                } else {
                    0nat
                },
        )
    }

    pub fn new() -> (r: Self)
        ensures
            r.u64_addrs() == Seq::<Sig<u64>>::empty(),
            r.bool_addrs() == Seq::<Sig<bool>>::empty(),
    {
        Self { u64_addrs: Vec::new(), bool_addrs: Vec::new() }
    }
}

/// A commitment to the values of a run.
pub trait Commitment {
    type SeedType;
    type CommitmentType;

    /// The commitment can be computed without reading empty cells or overflowing.
    spec fn can_get(&self, storage: &Witness, seed: Self::SeedType) -> bool;

    /// The commitment.
    spec fn commitment(&self, storage: &Witness, seed: Self::SeedType) -> Self::CommitmentType;

    fn get(&self, storage: &Witness, seed: Self::SeedType) -> (r: Self::CommitmentType)
        requires
            self.can_get(storage, seed),
        ensures
            r == self.commitment(storage, seed),
    ;
}

impl Commitment for GenericCommitmentGroup {
    type SeedType = u64;
    type CommitmentType = u64;

    open spec fn can_get(&self, storage: &Witness, seed: u64) -> bool {
        &&& forall|i: int| 0 <= i < self.u64_addrs().len() ==> (#[trigger] ReaderOf::<u64>::read(storage, self.u64_addrs()[i])) is Some
        &&& forall|i: int| 0 <= i < self.bool_addrs().len() ==> (#[trigger] ReaderOf::<bool>::read(storage, self.bool_addrs()[i])) is Some
        &&& commit_fits(self.values(storage), seed as nat)
    }

    open spec fn commitment(&self, storage: &Witness, seed: u64) -> u64 {
        commit_sum(self.values(storage), seed as nat) as u64
    }

    fn get(&self, storage: &Witness, seed: u64) -> (r: u64) {
        let ghost vals = self.values(storage);
        let ghost nu = self.u64_addrs().len();
        let mut running: u64 = 0;
        let mut pw: u64 = 1;
        let mut i: usize = 0;
        proof {
            assert(vals.take(0) =~= Seq::<nat>::empty());
            vstd::arithmetic::power::lemma_pow0(seed as int);
        }
        while i < self.u64_addrs.len()
            invariant
                i <= self.u64_addrs().len() == nu,
                vals == self.values(storage),
                self.can_get(storage, seed),
                running == commit_sum(vals.take(i as int), seed as nat),
                pw == pow(seed as int, i as nat),
            decreases self.u64_addrs().len() - i,
        {
            let v = *ReaderOf::<u64>::get(storage, &self.u64_addrs[i]);
            proof {
                assert(vals[i as int] == v as nat);
                lemma_commit_step(vals, seed as nat, i as int);
            }
            running = running + pw * v;
            pw = pw * seed;
            i = i + 1;
        }
        let mut j: usize = 0;
        while j < self.bool_addrs.len()
            invariant
                j <= self.bool_addrs().len(),
                nu == self.u64_addrs().len(),
                vals == self.values(storage),
                self.can_get(storage, seed),
                running == commit_sum(vals.take(nu + j), seed as nat),
                pw == pow(seed as int, (nu + j) as nat),
            decreases self.bool_addrs().len() - j,
        {
            let b = *ReaderOf::<bool>::get(storage, &self.bool_addrs[j]);
            let v: u64 = if b { 1 } else { 0 };
            proof {
                assert(vals[nu + j] == v as nat);
                lemma_commit_step(vals, seed as nat, nu + j);
            }
            running = running + pw * v;
            pw = pw * seed;
            j = j + 1;
        }
        proof {
            assert(vals.take(vals.len() as int) =~= vals);
        }
        running
    }
}

/// One more term: the partial sum and power stay in range, and extend as expected.
proof fn lemma_commit_step(vals: Seq<nat>, seed: nat, k: int)
    requires
        0 <= k < vals.len(),
        commit_fits(vals, seed),
    ensures
        commit_sum(vals.take(k + 1), seed) == commit_sum(vals.take(k), seed) + pow(seed as int, k as nat) * vals[k],
        pow(seed as int, (k + 1) as nat) == pow(seed as int, k as nat) * seed,
        commit_sum(vals.take(k + 1), seed) <= u64::MAX,
        pow(seed as int, (k + 1) as nat) <= u64::MAX,
        pow(seed as int, k as nat) * vals[k] <= u64::MAX,
        pow(seed as int, k as nat) * seed <= u64::MAX,
        pow(seed as int, k as nat) >= 0,
{
    assert(vals.take(k + 1).drop_last() =~= vals.take(k));
    assert(vals.take(k + 1).last() == vals[k]);
    lemma_pow_nonneg(seed, k as nat);
    assert(pow(seed as int, (k + 1) as nat) == seed * pow(seed as int, k as nat)) by {
        reveal(pow);
    }
    let _ = commit_sum(vals.take(k + 1), seed);
    let p = pow(seed as int, k as nat);
    assert(p * vals[k] >= 0) by (nonlinear_arith)
        requires p >= 0,;
    assert(p * seed == seed * p) by (nonlinear_arith);
}

/// Powers of a natural number are natural.
pub proof fn lemma_pow_nonneg(b: nat, e: nat)
    ensures
        pow(b as int, e) >= 0,
    decreases e,
{
    reveal(pow);
    if e > 0 {
        lemma_pow_nonneg(b, (e - 1) as nat);
        assert(b * pow(b as int, (e - 1) as nat) >= 0) by (nonlinear_arith)
            requires pow(b as int, (e - 1) as nat) >= 0,;
    }
}

/// Type of commitment that commits to nothing but its seed.
pub struct OtherCommitmentType {}

impl Commitment for OtherCommitmentType {
    type SeedType = u64;
    type CommitmentType = u64;

    open spec fn can_get(&self, storage: &Witness, seed: u64) -> bool {
        true
    }

    open spec fn commitment(&self, storage: &Witness, seed: u64) -> u64 {
        seed
    }

    fn get(&self, storage: &Witness, seed: u64) -> (r: u64) {
        seed
    }
}

/// A commitment group that can hold signals of type `T`.
pub trait CommitmentGroupOf<T> where StorageBuilder: AllocatorOf<T> {
    /// The signals of type `T` in the group.
    spec fn signals(&self) -> Seq<Sig<T>>;

    /// Allocates a new signal and adds it to the group.
    fn create(&mut self, storage: &mut StorageBuilder) -> (r: Sig<T>)
        requires
            <StorageBuilder as AllocatorOf<T>>::can_allocate(old(storage)),
        ensures
            r.index() == <StorageBuilder as AllocatorOf<T>>::next_index(old(storage)),
            <StorageBuilder as AllocatorOf<T>>::allocated_one(final(storage), old(storage)),
            <Self as CommitmentGroupOf<T>>::signals(final(self)) == <Self as CommitmentGroupOf<T>>::signals(old(self)).push(r),
    ;
}

impl CommitmentGroupOf<bool> for GenericCommitmentGroup {
    open spec fn signals(&self) -> Seq<Sig<bool>> {
        self.bool_addrs()
    }

    fn create(&mut self, storage: &mut StorageBuilder) -> (r: Sig<bool>) {
        let s = AllocatorOf::<bool>::allocate(storage);
        self.bool_addrs.push(s);
        s
    }
}

impl CommitmentGroupOf<u64> for GenericCommitmentGroup {
    open spec fn signals(&self) -> Seq<Sig<u64>> {
        self.u64_addrs()
    }

    fn create(&mut self, storage: &mut StorageBuilder) -> (r: Sig<u64>) {
        let s = AllocatorOf::<u64>::allocate(storage);
        self.u64_addrs.push(s);
        s
    }
}

/// Typed address of a commitment group inside a commitment scheme.
pub struct CGAddr<T> {
    idx: usize,
    _pd: PhantomData<T>,
}

impl<T> Clone for CGAddr<T> {
    fn clone(&self) -> (r: Self)
        ensures
            r == *self,
    {
        Self { idx: self.idx, _pd: PhantomData }
    }
}

impl<T> Copy for CGAddr<T> {}

impl<T> CGAddr<T> {
    /// Position of the group among the groups of its type.
    pub closed spec fn index(&self) -> nat {
        self.idx as nat
    }

    pub fn new(idx: usize) -> (r: Self)
        ensures
            r.index() == idx,
    {
        Self { idx, _pd: PhantomData }
    }
}

/// The commitment groups of a circuit.
pub struct CommitmentScheme {
    generic: Vec<GenericCommitmentGroup>,
    other: OtherCommitmentType,
}

impl CommitmentScheme {
    /// The generic groups, in order of creation.
    pub closed spec fn generic_groups(&self) -> Seq<GenericCommitmentGroup> {
        self.generic@
    }

    pub fn new() -> (r: Self)
        ensures
            r.generic_groups() == Seq::<GenericCommitmentGroup>::empty(),
    {
        Self { generic: Vec::new(), other: OtherCommitmentType {  } }
    }
}

/// Types of a commitment scheme.
pub trait TCommitmentScheme {
    type SeedType;
    type CommitmentType;
}

impl TCommitmentScheme for CommitmentScheme {
    type SeedType = u64;
    type CommitmentType = u64;
}

/// A commitment scheme that holds groups of type `GRP`.
pub trait CommitmentSchemeWith<GRP>: TCommitmentScheme + Sized {
    /// The group at `addr`, where there is one.
    spec fn group(&self, addr: CGAddr<GRP>) -> Option<GRP>;

    /// `self` is `before` with the groups unchanged, except that `addr` holds `grp`.
    spec fn with_group(&self, before: &Self, addr: CGAddr<GRP>, grp: GRP) -> bool;

    /// Adds a group; the new group is what `group` finds at the address returned.
    fn create(&mut self) -> (r: CGAddr<GRP>)
        requires
            <Self as CommitmentSchemeWith<GRP>>::can_create(old(self)),
        ensures
            <Self as CommitmentSchemeWith<GRP>>::group(final(self), r) is Some,
            <Self as CommitmentSchemeWith<GRP>>::created(final(self), old(self), r),
    ;

    /// There is room for one more group.
    spec fn can_create(&self) -> bool;

    /// `self` is `before` with a fresh group at `addr`.
    spec fn created(&self, before: &Self, addr: CGAddr<GRP>) -> bool;

    /// Access to the group at `addr`.
    fn get(&mut self, addr: &CGAddr<GRP>) -> (r: &mut GRP)
        requires
            <Self as CommitmentSchemeWith<GRP>>::group(old(self), *addr) is Some,
        ensures
            *r == <Self as CommitmentSchemeWith<GRP>>::group(old(self), *addr)->0,
            <Self as CommitmentSchemeWith<GRP>>::with_group(final(self), old(self), *addr, *final(r)),
    ;
}

impl CommitmentSchemeWith<GenericCommitmentGroup> for CommitmentScheme {
    open spec fn group(&self, addr: CGAddr<GenericCommitmentGroup>) -> Option<GenericCommitmentGroup> {
        if addr.index() < self.generic_groups().len() {
            Some(self.generic_groups()[addr.index() as int])
        } else {
            None
        }
    }

    open spec fn with_group(&self, before: &Self, addr: CGAddr<GenericCommitmentGroup>, grp: GenericCommitmentGroup) -> bool {
        self.generic_groups() == before.generic_groups().update(addr.index() as int, grp)
    }

    open spec fn can_create(&self) -> bool {
        self.generic_groups().len() < usize::MAX
    }

    open spec fn created(&self, before: &Self, addr: CGAddr<GenericCommitmentGroup>) -> bool {
        &&& addr.index() == before.generic_groups().len()
        &&& self.generic_groups().len() == before.generic_groups().len() + 1
        &&& self.generic_groups().take(addr.index() as int) == before.generic_groups()
        &&& self.generic_groups()[addr.index() as int].u64_addrs() == Seq::<Sig<u64>>::empty()
        &&& self.generic_groups()[addr.index() as int].bool_addrs() == Seq::<Sig<bool>>::empty()
    }

    fn create(&mut self) -> (r: CGAddr<GenericCommitmentGroup>) {
        self.generic.push(GenericCommitmentGroup::new());
        proof {
            assert(self.generic_groups().take(old(self).generic_groups().len() as int) =~= old(self).generic_groups());
        }
        CGAddr::new(self.generic.len() - 1)
    }

    fn get(&mut self, addr: &CGAddr<GenericCommitmentGroup>) -> (r: &mut GenericCommitmentGroup) {
        &mut self.generic[addr.idx]
    }
}

impl CommitmentSchemeWith<OtherCommitmentType> for CommitmentScheme {
    open spec fn group(&self, addr: CGAddr<OtherCommitmentType>) -> Option<OtherCommitmentType> {
        Some(OtherCommitmentType {  })
    }

    open spec fn with_group(&self, before: &Self, addr: CGAddr<OtherCommitmentType>, grp: OtherCommitmentType) -> bool {
        self.generic_groups() == before.generic_groups()
    }

    open spec fn can_create(&self) -> bool {
        true
    }

    open spec fn created(&self, before: &Self, addr: CGAddr<OtherCommitmentType>) -> bool {
        &&& addr.index() == 0
        &&& self == before
    }

    fn create(&mut self) -> (r: CGAddr<OtherCommitmentType>) {
        CGAddr::new(0)
    }

    fn get(&mut self, addr: &CGAddr<OtherCommitmentType>) -> (r: &mut OtherCommitmentType) {
        &mut self.other
    }
}

/// A constraint: evaluates to zeros on a satisfying witness.
pub trait TConstraint {
    type Field;
    type Witness;

    fn evaluate(&self, witness: &Self::Witness) -> Vec<Self::Field>;
}

/// The constraints of a circuit.
pub struct ConstraintSystem<C> {
    constraints: Vec<C>,
}

impl<C> ConstraintSystem<C> {
    /// The constraints, in order of addition.
    pub closed spec fn constraints(&self) -> Seq<C> {
        self.constraints@
    }

    pub fn new() -> (r: Self)
        ensures
            r.constraints() == Seq::<C>::empty(),
    {
        Self { constraints: Vec::new() }
    }
}

/// A system of constraints over a field and a witness type.
pub trait TConstraintSystem {
    type Field;
    type Witness;
    type Constraint;

    /// The constraints added so far.
    spec fn added(&self) -> Seq<Self::Constraint>;

    fn add(&mut self, constraint: Self::Constraint)
        ensures
            final(self).added() == old(self).added().push(constraint),
    ;
}

impl<C: TConstraint<Field = u64, Witness = Witness>> TConstraintSystem for ConstraintSystem<C> {
    type Field = u64;
    type Witness = Witness;
    type Constraint = C;

    open spec fn added(&self) -> Seq<C> {
        self.constraints()
    }

    fn add(&mut self, constraint: C) {
        self.constraints.push(constraint)
    }
}

/// Template of a computation step, instantiated once per run.
pub trait TComputationTemplate {
    type Computation: TComputation;

    /// The computation `spawn` creates.
    spec fn spawned(&self) -> Self::Computation;

    fn spawn(&self) -> (r: Self::Computation)
        ensures
            r == self.spawned(),
    ;
}

/// A computation step of a run: computes signals from signals.
pub trait TComputation {
    fn execute(&self, storage: &mut Witness);
}

/// The computation steps of a run.
pub struct Execution<S> {
    steps: Vec<S>,
}

impl<S> Execution<S> {
    /// The steps, in order.
    pub closed spec fn steps(&self) -> Seq<S> {
        self.steps@
    }

    pub fn new(steps: Vec<S>) -> (r: Self)
        ensures
            r.steps() == steps@,
    {
        Self { steps }
    }
}

/// Collects step templates and instantiates them for a run.
pub trait TExecutionBuilder {
    type Template: TComputationTemplate;

    /// The templates added so far.
    spec fn templates(&self) -> Seq<Self::Template>;

    fn add(&mut self, computation: Self::Template)
        ensures
            final(self).templates() == old(self).templates().push(computation),
    ;

    fn spawn(&self) -> (r: Execution<<Self::Template as TComputationTemplate>::Computation>)
        ensures
            r.steps().len() == self.templates().len(),
            forall|i: int| 0 <= i < r.steps().len() ==> #[trigger] r.steps()[i] == self.templates()[i].spawned(),
    ;
}

/// The step templates of a circuit.
pub struct ExecutionBuilder<T> {
    steps: Vec<T>,
}

impl<T> ExecutionBuilder<T> {
    pub closed spec fn steps(&self) -> Seq<T> {
        self.steps@
    }

    pub fn new() -> (r: Self)
        ensures
            r.steps() == Seq::<T>::empty(),
    {
        Self { steps: Vec::new() }
    }
}

impl<T: TComputationTemplate> TExecutionBuilder for ExecutionBuilder<T> {
    type Template = T;

    open spec fn templates(&self) -> Seq<T> {
        self.steps()
    }

    fn add(&mut self, computation: T) {
        self.steps.push(computation)
    }

    fn spawn(&self) -> (r: Execution<T::Computation>) {
        let mut out: Vec<T::Computation> = Vec::new();
        let mut i: usize = 0;
        while i < self.steps.len()
            invariant
                i <= self.steps().len(),
                out@.len() == i,
                forall|k: int| 0 <= k < i ==> #[trigger] out@[k] == self.steps()[k].spawned(),
            decreases self.steps().len() - i,
        {
            out.push(self.steps[i].spawn());
            i = i + 1;
        }
        Execution::new(out)
    }
}

/// Builds a circuit: storage layout, commitment groups, constraints and steps.
pub struct CircuitBuilder<C, T> {
    storage: StorageBuilder,
    commitment_scheme: CommitmentScheme,
    constraint_system: ConstraintSystem<C>,
    execution: ExecutionBuilder<T>,
}

impl<C: TConstraint<Field = u64, Witness = Witness>, T: TComputationTemplate> CircuitBuilder<C, T> {
    pub closed spec fn storage(&self) -> StorageBuilder {
        self.storage
    }

    pub closed spec fn commitment_scheme(&self) -> CommitmentScheme {
        self.commitment_scheme
    }

    pub closed spec fn constraint_system(&self) -> ConstraintSystem<C> {
        self.constraint_system
    }

    pub closed spec fn execution(&self) -> ExecutionBuilder<T> {
        self.execution
    }

    pub fn new() -> (r: Self)
        ensures
            r.storage().num_bools() == 0,
            r.storage().num_u64s() == 0,
            r.commitment_scheme().generic_groups() == Seq::<GenericCommitmentGroup>::empty(),
            r.constraint_system().constraints() == Seq::<C>::empty(),
            r.execution().steps() == Seq::<T>::empty(),
    {
        Self {
            storage: StorageBuilder::new(),
            commitment_scheme: CommitmentScheme::new(),
            constraint_system: ConstraintSystem::new(),
            execution: ExecutionBuilder::new(),
        }
    }

    /// Adds a commitment group of type `GRP`.
    pub fn new_commitment_group<GRP>(&mut self) -> (r: CGAddr<GRP>)
        where CommitmentScheme: CommitmentSchemeWith<GRP>
        requires
            <CommitmentScheme as CommitmentSchemeWith<GRP>>::can_create(&old(self).commitment_scheme()),
        ensures
            <CommitmentScheme as CommitmentSchemeWith<GRP>>::created(&final(self).commitment_scheme(), &old(self).commitment_scheme(), r),
            final(self).storage() == old(self).storage(),
            final(self).constraint_system() == old(self).constraint_system(),
            final(self).execution() == old(self).execution(),
    {
        CommitmentSchemeWith::<GRP>::create(&mut self.commitment_scheme)
    }

    /// Allocates a signal of type `S` in the group at `grp_addr`.
    pub fn new_signal<S, GRP>(&mut self, grp_addr: &CGAddr<GRP>) -> (r: Sig<S>)
        where
            GRP: CommitmentGroupOf<S>,
            CommitmentScheme: CommitmentSchemeWith<GRP>,
            StorageBuilder: AllocatorOf<S>,
        requires
            <CommitmentScheme as CommitmentSchemeWith<GRP>>::group(&old(self).commitment_scheme(), *grp_addr) is Some,
            <StorageBuilder as AllocatorOf<S>>::can_allocate(&old(self).storage()),
        ensures
            r.index() == <StorageBuilder as AllocatorOf<S>>::next_index(&old(self).storage()),
            <StorageBuilder as AllocatorOf<S>>::allocated_one(&final(self).storage(), &old(self).storage()),
            final(self).constraint_system() == old(self).constraint_system(),
            final(self).execution() == old(self).execution(),
            exists|g: GRP|
                #[trigger] <CommitmentScheme as CommitmentSchemeWith<GRP>>::with_group(
                    &final(self).commitment_scheme(),
                    &old(self).commitment_scheme(),
                    *grp_addr,
                    g,
                ) && <GRP as CommitmentGroupOf<S>>::signals(&g) == <GRP as CommitmentGroupOf<S>>::signals(
                    &(<CommitmentScheme as CommitmentSchemeWith<GRP>>::group(&old(self).commitment_scheme(), *grp_addr)->0),
                ).push(r),
    {
        let grp = CommitmentSchemeWith::<GRP>::get(&mut self.commitment_scheme, grp_addr);
        let s = grp.create(&mut self.storage);
        let ghost g = *grp;
        proof {
            assert(<CommitmentScheme as CommitmentSchemeWith<GRP>>::with_group(
                &self.commitment_scheme(),
                &old(self).commitment_scheme(),
                *grp_addr,
                g,
            ));
        }
        s
    }

    pub fn set_constraint(&mut self, constraint: C)
        ensures
            final(self).constraint_system().constraints() == old(self).constraint_system().constraints().push(constraint),
            final(self).storage() == old(self).storage(),
            final(self).execution() == old(self).execution(),
    {
        self.constraint_system.add(constraint)
    }

    pub fn add_step(&mut self, step: T)
        ensures
            final(self).execution().steps() == old(self).execution().steps().push(step),
            final(self).storage() == old(self).storage(),
            final(self).constraint_system() == old(self).constraint_system(),
    {
        self.execution.add(step)
    }
}

} // verus!
