//! The referents by which instances are told apart.

use vstd::prelude::*;

verus! {

/// Tells an instance from every other one, or points at nothing at all.
#[derive(Debug, Clone, Copy, PartialEq, Eq, Hash, Structural)]
pub struct Ref {
    /// The number of the instance, with zero for none.
    pub value: u128,
}

/// The referent that points at nothing.
pub open spec fn nothing() -> Ref {
    Ref { value: 0 }
}

impl Ref {
    /// A referent that points at nothing.
    pub fn none() -> (res: Ref)
        ensures
            res == nothing(),
    {
        Ref { value: 0 }
    }

    /// Tells whether this referent points at nothing.
    pub fn is_none(&self) -> (res: bool)
        ensures
            res == (*self == nothing()),
    {
        self.value == 0
    }
}

} // verus!
