//! Interfaces of the stages of a circuit: build, spawn a run, execute it,
//! constrain it.

use vstd::prelude::*;

verus! {

/// Execution of the advice of a circuit.
pub trait TExecution {
    fn advice(&mut self);
}

/// A constraint evaluated on a witness.
pub trait TConstraint {
    type Field;
    type Witness;

    fn execute(&self, wtns: &Self::Witness) -> Vec<Self::Field>;
}

/// A system that collects constraints.
pub trait TConstraintSystem {
    type Field;
    type Witness;
    type Constraint: TConstraint<Field = Self::Field, Witness = Self::Witness>;

    fn constrain(&mut self, constraint: Self::Constraint);
}

/// Spawns runs of a built circuit.
pub trait TCircuitRunSpawner {
    type RunStorage;
    type CircuitRun: TCircuitRun<Storage = Self::RunStorage>;

    fn spawn(&self) -> Self::CircuitRun;
}

/// A run of a circuit.
pub trait TCircuitRun {
    type Addr;
    type Storage;
    type Witness;

    fn storage(&mut self) -> &mut Self::Storage;

    fn execute(&mut self);

    fn set_input<T>(&mut self, addr: Self::Addr, val: T);
}

} // verus!
