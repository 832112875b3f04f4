//! Entity identity.

use vstd::prelude::*;
use crate::collections::SparseIndex;

verus! {

/// Opaque handle of one entity, unique for the entity's lifetime.
///
/// The storage core issues these monotonically but tolerates arbitrary
/// non-contiguous values wherever a handle is taken as input.
#[derive(Copy, Clone, Eq, PartialEq, Ord, PartialOrd, Hash, Debug, Structural)]
pub struct EntityId(usize);

impl View for EntityId {
    type V = nat;

    closed spec fn view(&self) -> nat {
        self.0 as nat
    }
}

impl EntityId {
    pub fn new(id: usize) -> (r: Self)
        ensures
            r@ == id as nat,
    {
        Self(id)
    }

    /// The raw index behind the handle.
    pub fn index(&self) -> (r: usize)
        ensures
            r as nat == self@,
    {
        self.0
    }
}

impl SparseIndex for EntityId {
    open spec fn key(&self) -> nat {
        self@
    }

    fn sparse_index(&self) -> (r: usize) {
        self.0
    }
}

} // verus!
