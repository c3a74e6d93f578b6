//! Dimension descriptors: how many variables, and what truncation order.
//!
//! A differential is shaped by two counts.  Each may be fixed at compile
//! time or carried at run time; the engine only ever asks for the count, so
//! it is written against the capability, not the representation.

use vstd::prelude::*;

verus! {

/// A count that shapes a differential.
pub trait Dim: Sized + Copy {
    /// The count this descriptor stands for.
    spec fn spec_value(&self) -> usize;

    fn value(&self) -> (r: usize)
        ensures
            r == self.spec_value(),
    ;
}

/// A count fixed at compile time.
#[derive(Debug, Clone, Copy, PartialEq, Eq)]
pub struct Fixed<const N: usize>;

/// A count carried at run time.
#[derive(Debug, Clone, Copy, PartialEq, Eq, Structural)]
pub struct Dynamic(pub usize);

impl<const N: usize> Dim for Fixed<N> {
    open spec fn spec_value(&self) -> usize {
        N
    }

    fn value(&self) -> (r: usize) {
        N
    }
}

impl Dim for Dynamic {
    open spec fn spec_value(&self) -> usize {
        self.0
    }

    fn value(&self) -> (r: usize) {
        self.0
    }
}

} // verus!
