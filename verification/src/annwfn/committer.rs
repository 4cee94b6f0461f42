//! Interfaces of commitment schemes and their groups.

use vstd::prelude::*;

verus! {

/// A commitment scheme, addressing its groups.
pub trait TCommitmentScheme {
    type CommitmentGrpAddr: Clone + Copy;
}

/// A commitment scheme that holds groups of type `CommitmentGroup`.
pub trait TCommitmentSchemeWith<CommitmentGroup>: TCommitmentScheme {
    fn add_group(&mut self, grp: CommitmentGroup) -> Self::CommitmentGrpAddr;

    fn get_group(&mut self, addr: Self::CommitmentGrpAddr) -> &mut CommitmentGroup;
}

/// A group of signals committed together.
pub trait TCommitmentGroup {
    type Var;
    type Sig;
    type Commitment;

    fn calculate(&mut self) -> Self::Commitment;
}

/// A group that can commit to variables of type `T`.
pub trait CommitTo<T>: TCommitmentGroup {
    fn commit(&mut self, var: Self::Var) -> Self::Sig;
}

} // verus!
