//! Gates: polynomial maps of known degree, arity and output size, which a
//! constraint requires to vanish.

use vstd::prelude::*;
use crate::field::{Fe, fadd, fsub, fmul, vals};

verus! {

/// A polynomial gate.
pub trait Gate: Sized {
    /// Degree.
    spec fn spec_d(&self) -> nat;

    /// Number of inputs.
    spec fn spec_i(&self) -> nat;

    /// Number of outputs.
    spec fn spec_o(&self) -> nat;

    /// The values of the outputs on a given input.
    spec fn spec_exec(&self, input: Seq<Fe>) -> Seq<nat>;

    /// Returns degree.
    fn d(&self) -> (r: usize)
        ensures
            r == self.spec_d(),
    ;

    /// Returns input size.
    fn i(&self) -> (r: usize)
        ensures
            r == self.spec_i(),
    ;

    /// Returns output size.
    fn o(&self) -> (r: usize)
        ensures
            r == self.spec_o(),
    ;

    /// Executes gate on a given input.
    fn exec(&self, input: &[Fe]) -> (r: Vec<Fe>)
        requires
            input@.len() == self.spec_i(),
        ensures
            vals(r@) == self.spec_exec(input@),
            r@.len() == self.spec_o(),
    ;
}

} // verus!
