//! Per-component-type identity and metadata.
//!
//! A component type is known to the storage core by a dense [`Id`] issued at
//! registration, together with a [`Descriptor`] that records everything the
//! type-erased machinery needs: the id, a caller-supplied key for the native
//! type identity, the in-memory [`Layout`] of one value, and whether values
//! of the type carry a destructor that must run when a row is discarded.

use vstd::prelude::*;

verus! {

/// Identifier of a registered component type.
///
/// The registry issues these densely: the k-th type registered on a
/// [`crate::storage::Storage`] gets index k, so an `Id` doubles as the
/// position of its `Descriptor` in the registry.
#[derive(Copy, Clone, Eq, PartialEq, Ord, PartialOrd, Hash, Debug, Structural)]
pub struct Id(usize);

impl View for Id {
    type V = nat;

    closed spec fn view(&self) -> nat {
        self.0 as nat
    }
}

impl Id {
    pub fn new(id: usize) -> (r: Self)
        ensures
            r@ == id as nat,
    {
        Self(id)
    }

    /// The raw index behind the id.
    pub fn index(&self) -> (r: usize)
        ensures
            r as nat == self@,
    {
        self.0
    }
}

impl From<Id> for usize {
    fn from(value: Id) -> (r: usize)
        ensures
            r as nat == value@,
    {
        value.0
    }
}

impl vstd::std_specs::convert::FromSpecImpl<Id> for usize {
    open spec fn obeys_from_spec() -> bool {
        true
    }

    open spec fn from_spec(value: Id) -> usize {
        value@ as usize
    }
}

/// Size and alignment of one component value, in bytes.
///
/// The storage core only computes with `size` (it is the width of one cell
/// of a [`crate::column::Column`]); `align` is carried so that an unverified
/// allocator shim around the core can lay rows out as the native type
/// requires.
#[derive(Copy, Clone, Eq, PartialEq, Hash, Debug, Structural)]
pub struct Layout {
    size: usize,
    align: usize,
}

impl Layout {
    pub fn new(size: usize, align: usize) -> (r: Self)
        ensures
            r.size() == size,
            r.align() == align,
    {
        Self { size, align }
    }

    pub closed spec fn spec_size(&self) -> usize {
        self.size
    }

    pub closed spec fn spec_align(&self) -> usize {
        self.align
    }

    #[verifier::when_used_as_spec(spec_size)]
    pub fn size(&self) -> (r: usize)
        ensures
            r == self.spec_size(),
    {
        self.size
    }

    #[verifier::when_used_as_spec(spec_align)]
    pub fn align(&self) -> (r: usize)
        ensures
            r == self.spec_align(),
    {
        self.align
    }
}

/// Type-erased metadata for one component type, immutable once created.
///
/// `type_id` is a caller-chosen key standing for the native type identity;
/// the registry guarantees one `Descriptor` per distinct key. `drop` says
/// whether values of the type have a nontrivial destructor: when it is
/// false, discarding a row is a pure memory operation.
#[derive(Copy, Clone, Eq, PartialEq, Hash, Debug, Structural)]
pub struct Descriptor {
    id: Id,
    type_id: usize,
    layout: Layout,
    drop: bool,
}

impl Descriptor {
    pub fn new(id: Id, type_id: usize, layout: Layout, drop: bool) -> (r: Self)
        ensures
            r.id()@ == id@,
            r.type_id() == type_id,
            r.layout() == layout,
            r.drop() == drop,
    {
        Self { id, type_id, layout, drop }
    }

    pub closed spec fn spec_id(&self) -> Id {
        self.id
    }

    #[verifier::when_used_as_spec(spec_id)]
    pub fn id(&self) -> (r: Id)
        ensures
            r == self.spec_id(),
    {
        self.id
    }

    pub closed spec fn spec_type_id(&self) -> usize {
        self.type_id
    }

    #[verifier::when_used_as_spec(spec_type_id)]
    pub fn type_id(&self) -> (r: usize)
        ensures
            r == self.spec_type_id(),
    {
        self.type_id
    }

    pub closed spec fn spec_layout(&self) -> Layout {
        self.layout
    }

    #[verifier::when_used_as_spec(spec_layout)]
    pub fn layout(&self) -> (r: Layout)
        ensures
            r == self.spec_layout(),
    {
        self.layout
    }

    pub closed spec fn spec_drop(&self) -> bool {
        self.drop
    }

    /// Whether values of this type have a destructor to run on discard.
    #[verifier::when_used_as_spec(spec_drop)]
    pub fn drop(&self) -> (r: bool)
        ensures
            r == self.spec_drop(),
    {
        self.drop
    }
}

} // verus!
