//! Storage interfaces: a builder that hands out typed addresses, and the run
//! storage that reads and writes values at them.

use vstd::prelude::*;
use crate::annwfn::Sig;

verus! {

/// Builds storage layouts; `spawn` creates the storage of a run.
pub trait TStorageBuilder {
    type RunStorage: TRunStorage;

    fn spawn(&self) -> Self::RunStorage;
}

/// Storage of a single run. Its addresses are the typed addresses `Sig<T>`.
pub trait TRunStorage {}

/// A builder that can allocate values of type `T`.
pub trait AllocatorOf<T>: TStorageBuilder {
    /// There is room for one more address.
    spec fn can_allocate(&self) -> bool;

    /// Index the next allocated address gets.
    spec fn next_index(&self) -> nat;

    /// `self` is `before` with one more address allocated.
    spec fn allocated_one(&self, before: &Self) -> bool;

    fn allocate(&mut self) -> (r: Sig<T>)
        requires
            <Self as AllocatorOf<T>>::can_allocate(old(self)),
        ensures
            r.index() == <Self as AllocatorOf<T>>::next_index(old(self)),
            <Self as AllocatorOf<T>>::allocated_one(final(self), old(self)),
    ;
}

/// Run storage that can store values of type `T`.
pub trait WriterOf<T>: TRunStorage {
    /// The storage has a cell at `addr`.
    spec fn has_cell(&self, addr: Sig<T>) -> bool;

    /// What the cell at `addr` holds.
    spec fn cell(&self, addr: Sig<T>) -> Option<T>;

    fn put(&mut self, addr: &Sig<T>, val: T)
        requires
            old(self).has_cell(*addr),
        ensures
            final(self).cell(*addr) == Some(val),
    ;
}

/// Run storage that can read values of type `T`.
pub trait ReaderOf<T>: TRunStorage {
    /// What the cell at `addr` holds, `None` where it holds nothing.
    spec fn read(&self, addr: Sig<T>) -> Option<T>;

    fn get(&self, addr: &Sig<T>) -> (r: &T)
        requires
            self.read(*addr) is Some,
        ensures
            *r == self.read(*addr)->0,
    ;
}

} // verus!
